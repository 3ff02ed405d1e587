//! The difficulty levels of a chart and their wire ordinals.

use crate::text::{decimal, push_decimal};
use vstd::prelude::*;
use vstd::string::*;

verus! {

/// What the message for an unknown ordinal starts with; the ordinal follows.
pub const ILLEGAL_LEVEL_TYPE: &'static str = "illegal level type: ";

/// The five difficulty levels.
#[derive(Clone, Copy, Debug, PartialEq, Eq, Structural)]
pub enum LevelType {
    EZ,
    HD,
    IN,
    AT,
    SP,
}

/// The level with wire ordinal `value`, if there is one.
pub open spec fn level_of(value: u8) -> Option<LevelType> {
    if value == 0 {
        Some(LevelType::EZ)
    } else if value == 1 {
        Some(LevelType::HD)
    } else if value == 2 {
        Some(LevelType::IN)
    } else if value == 3 {
        Some(LevelType::AT)
    } else if value == 4 {
        Some(LevelType::SP)
    } else {
        None
    }
}

/// The message that turns down `value`: it names the value in base ten.
pub open spec fn illegal_level_text(value: u8) -> Seq<char> {
    ILLEGAL_LEVEL_TYPE@ + decimal(value as nat)
}

impl LevelType {
    /// The wire ordinal of the level.
    pub open spec fn ordinal_of(self) -> u8 {
        match self {
            LevelType::EZ => 0,
            LevelType::HD => 1,
            LevelType::IN => 2,
            LevelType::AT => 3,
            LevelType::SP => 4,
        }
    }

    /// The wire ordinal of the level.
    pub fn ordinal(&self) -> (r: u8)
        ensures
            r == self.ordinal_of(),
            r <= 4,
    {
        match self {
            LevelType::EZ => 0,
            LevelType::HD => 1,
            LevelType::IN => 2,
            LevelType::AT => 3,
            LevelType::SP => 4,
        }
    }

    /// The level with wire ordinal `value`. An ordinal above four is turned
    /// down with a message that names it.
    pub fn try_from(value: u8) -> (r: Result<LevelType, String>)
        ensures
            match level_of(value) {
                Some(level) => r == Ok::<LevelType, String>(level),
                None => r is Err && r->Err_0@ == illegal_level_text(value),
            },
    {
        match value {
            0 => Ok(LevelType::EZ),
            1 => Ok(LevelType::HD),
            2 => Ok(LevelType::IN),
            3 => Ok(LevelType::AT),
            4 => Ok(LevelType::SP),
            x => {
                let mut message = String::from_str(ILLEGAL_LEVEL_TYPE);
                let n: u32 = x as u32;
                push_decimal(&mut message, n);
                Err(message)
            },
        }
    }
}

/// The ordinals zero to four and the five levels are matched one to one:
/// each such ordinal has a level whose ordinal it is, each level is the level
/// of its own ordinal, and no other ordinal has a level.
pub proof fn lemma_level_bijection()
    ensures
        forall|value: u8|
            value <= 4 ==> (#[trigger] level_of(value)) is Some && level_of(value)->0.ordinal_of()
                == value,
        forall|value: u8| value >= 5 ==> (#[trigger] level_of(value)) is None,
        forall|level: LevelType|
            (#[trigger] level.ordinal_of()) <= 4 && level_of(level.ordinal_of()) == Some(level),
        forall|a: u8, b: u8|
            a <= 4 && b <= 4 && a != b ==> (#[trigger] level_of(a)) != (#[trigger] level_of(b)),
{
}

} // verus!
