//! The gallery: every image and video laid out by time and searchable by
//! the automatic tags.
use vstd::prelude::*;

use crate::moments::{list_query, opt_view, query_list, query_text, text_query};
use crate::text::string_views;

verus! {

pub const DEFAULT_LIMIT: i64 = 60;

pub const MAX_LIMIT: i64 = 200;

/// The gallery's query: comma-separated tag keys that must all match, a
/// keyword, and paging.
pub struct GalleryQuery {
    pub tags: Option<String>,
    pub q: Option<String>,
    pub limit: Option<i64>,
    pub offset: Option<i64>,
}

/// How many images and videos carry a tag.
pub struct TagStat {
    pub key: String,
    pub name: String,
    pub group: String,
    pub count: i64,
}

/// The query of a "find similar" request.
pub struct SimilarQuery {
    pub limit: Option<i64>,
}

/// The tag keys of a query: split at commas, trimmed, empty ones dropped;
/// `None` when none is left.
pub fn parse_tags(raw: Option<&str>) -> (r: Option<Vec<String>>)
    ensures
        match query_list(
            match raw {
                Some(s) => Some(s@),
                None => None,
            },
        ) {
            Some(l) => r is Some && string_views(r->0@) == l,
            None => r is None,
        },
{
    list_query(raw)
}

/// The keyword of a query, trimmed; `None` when nothing is left.
pub fn parse_q(raw: Option<&str>) -> (r: Option<String>)
    ensures
        opt_view(r) == query_text(
            match raw {
                Some(s) => Some(s@),
                None => None,
            },
        ),
{
    text_query(raw)
}

pub open spec fn clamp_to(v: int, lo: int, hi: int) -> int {
    crate::config::clamp(v, lo, hi)
}

/// The page of a gallery query: 60 items by default, clamped to 1..=200,
/// starting at the offset (0 by default, never negative).
pub fn page_of(limit: Option<i64>, offset: Option<i64>) -> (r: (i64, i64))
    ensures
        r.0 == clamp_to(
            match limit {
                Some(l) => l as int,
                None => DEFAULT_LIMIT as int,
            },
            1,
            MAX_LIMIT as int,
        ),
        r.1 == (match offset {
            Some(o) => if o < 0 {
                0
            } else {
                o as int
            },
            None => 0,
        }),
{
    let l = match limit {
        Some(l) => l,
        None => DEFAULT_LIMIT,
    };
    let l = if l < 1 {
        1
    } else if l > MAX_LIMIT {
        MAX_LIMIT
    } else {
        l
    };
    let o = match offset {
        Some(o) => if o < 0 {
            0
        } else {
            o
        },
        None => 0,
    };
    (l, o)
}

/// How many similar images to return: 12 by default, clamped to 1..=60.
pub fn similar_limit(limit: Option<i64>) -> (r: i64)
    ensures
        r == clamp_to(
            match limit {
                Some(l) => l as int,
                None => 12,
            },
            1,
            60,
        ),
{
    let l = match limit {
        Some(l) => l,
        None => 12,
    };
    if l < 1 {
        1
    } else if l > 60 {
        60
    } else {
        l
    }
}

/// Whether more items follow the page that starts at `offset` and showed `shown` of `total`.
pub fn has_more(offset: i64, shown: usize, total: i64) -> (r: bool)
    requires
        offset >= 0,
    ensures
        r == (offset + shown < total),
{
    (offset as i128) + (shown as i128) < (total as i128)
}

} // verus!
