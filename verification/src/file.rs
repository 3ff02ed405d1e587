//! References to URL-addressed resources, and the address of their
//! thumbnails.

use crate::text::{decimal, push_decimal};
use vstd::prelude::*;
use vstd::string::*;

verus! {

/// Addresses that start with this are served by a host that resizes images
/// on request.
pub const THUMBNAIL_HOST: &'static str = "https://phira.mivik.cn/";

/// The width asked of a thumbnail, in pixels.
pub const THUMBNAIL_WIDTH: u32 = 347;

/// The height asked of a thumbnail, in pixels.
pub const THUMBNAIL_HEIGHT: u32 = 200;

/// What the resize request starts with; the width follows.
pub const RESIZE_WIDTH: &'static str = "?imageView/0/w/";

/// What stands between width and height in the resize request.
pub const RESIZE_HEIGHT: &'static str = "/h/";

/// A reference to a remote binary resource: its address.
#[derive(Debug)]
pub struct PZFile {
    pub url: String,
}

impl Clone for PZFile {
    /// A reference to the same address.
    fn clone(&self) -> (r: Self)
        ensures
            r.url@ == self.url@,
    {
        PZFile { url: self.url.clone() }
    }
}

/// The query that asks the host for an image resized to `width` by `height`.
pub open spec fn resize_query(width: u32, height: u32) -> Seq<char> {
    RESIZE_WIDTH@ + decimal(width as nat) + RESIZE_HEIGHT@ + decimal(height as nat)
}

/// The address from which the thumbnail of the resource at `url` is read:
/// under the resizing host the address with the resize query for the
/// thumbnail size added, anywhere else the address itself.
pub open spec fn thumbnail_url(url: Seq<char>) -> Seq<char> {
    if THUMBNAIL_HOST@.is_prefix_of(url) {
        url + resize_query(THUMBNAIL_WIDTH, THUMBNAIL_HEIGHT)
    } else {
        url
    }
}

/// Whether `text` starts with `prefix`.
pub fn starts_with(text: &str, prefix: &str) -> (b: bool)
    ensures
        b == prefix@.is_prefix_of(text@),
{
    let n = prefix.unicode_len();
    if text.unicode_len() < n {
        return false;
    }
    let mut i: usize = 0;
    while i < n
        invariant
            n == prefix@.len(),
            n <= text@.len(),
            i <= n,
            forall|k: int| 0 <= k < i ==> text@[k] == prefix@[k],
        decreases n - i,
    {
        if text.get_char(i) != prefix.get_char(i) {
            assert(text@.subrange(0, n as int)[i as int] != prefix@[i as int]);
            return false;
        }
        i += 1;
    }
    assert(prefix@ =~= text@.subrange(0, n as int));
    true
}

impl PZFile {
    /// Whether the resource lives on the host that resizes images.
    pub fn on_thumbnail_host(&self) -> (b: bool)
        ensures
            b == THUMBNAIL_HOST@.is_prefix_of(self.url@),
    {
        starts_with(self.url.as_str(), THUMBNAIL_HOST)
    }

    /// The resource at this address with the request to resize it to `width`
    /// by `height` added.
    pub fn resized(&self, width: u32, height: u32) -> (r: PZFile)
        ensures
            r.url@ == self.url@ + resize_query(width, height),
    {
        let mut url = self.url.clone();
        url.append(RESIZE_WIDTH);
        push_decimal(&mut url, width);
        url.append(RESIZE_HEIGHT);
        push_decimal(&mut url, height);
        assert(url@ =~= self.url@ + resize_query(width, height));
        PZFile { url }
    }

    /// The resource from which the thumbnail is read: the resized one where
    /// the host resizes, the resource itself anywhere else.
    pub fn thumbnail(&self) -> (r: PZFile)
        ensures
            r.url@ == thumbnail_url(self.url@),
    {
        if self.on_thumbnail_host() {
            self.resized(THUMBNAIL_WIDTH, THUMBNAIL_HEIGHT)
        } else {
            self.clone()
        }
    }
}

} // verus!
