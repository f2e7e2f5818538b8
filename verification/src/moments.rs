//! Moments: checking and normalising what is written, and shaping what is
//! read back.
use vstd::prelude::*;

use crate::error::AppError;
use crate::text::{
    ascii_chars, ascii_lower, chars_eq, chars_of, decimal_u64, eq_ignore_ascii_case,
    eq_ignore_case, is_whitespace, is_ws, nat_decimal, push_chars, string_of, string_views,
    take_chars, to_ascii_lower, trim, trim_chars, ascii_to_chars,
};

verus! {

pub const MAX_TITLE_CHARS: usize = 120;

pub const MAX_CONTENT_CHARS: usize = 20_000;

pub const MAX_TAGS: usize = 12;

pub const MAX_TAG_CHARS: usize = 32;

pub const MAX_PLACE_CHARS: usize = 60;

pub const MAX_CITY_CHARS: usize = 24;

pub const EXCERPT_CHARS: usize = 80;

pub const DEFAULT_LIMIT: i64 = 200;

pub const MAX_LIMIT: i64 = 1000;

/// Trims `raw`; refuses it when more than `max` characters remain.
fn trimmed_within(raw: &str, max: usize, too_long: &str) -> (r: Result<String, AppError>)
    ensures
        match r {
            Ok(s) => s@ == trim(raw@) && trim(raw@).len() <= max,
            Err(e) => trim(raw@).len() > max && e is Validation && e->Validation_0@ == too_long@,
        },
{
    let t = trim_chars(&chars_of(raw));
    if t.len() > max {
        return Err(AppError::validation(too_long));
    }
    Ok(string_of(&t))
}

/// A title: trimmed, at most 120 characters.
pub fn normalize_title(raw: &str) -> (r: Result<String, AppError>)
    ensures
        match r {
            Ok(s) => s@ == trim(raw@) && trim(raw@).len() <= MAX_TITLE_CHARS,
            Err(e) => trim(raw@).len() > MAX_TITLE_CHARS && e is Validation && e->Validation_0@
                == "主题太长了，最多 120 个字"@,
        },
{
    trimmed_within(raw, MAX_TITLE_CHARS, "主题太长了，最多 120 个字")
}

/// The text of a moment: trimmed, at most 20000 characters.
pub fn normalize_content(raw: &str) -> (r: Result<String, AppError>)
    ensures
        match r {
            Ok(s) => s@ == trim(raw@) && trim(raw@).len() <= MAX_CONTENT_CHARS,
            Err(e) => trim(raw@).len() > MAX_CONTENT_CHARS && e is Validation
                && e->Validation_0@ == "文字太长了，最多 20000 个字"@,
        },
{
    trimmed_within(raw, MAX_CONTENT_CHARS, "文字太长了，最多 20000 个字")
}

/// The names of a place: both trimmed, the place name at most 60 and the
/// city at most 24 characters.
pub fn normalize_place_names(name: Option<&str>, city: Option<&str>) -> (r: Result<
    (String, String),
    AppError,
>)
    ensures
        ({
            let n = trim(
                match name {
                    Some(s) => s@,
                    None => Seq::<char>::empty(),
                },
            );
            let c = trim(
                match city {
                    Some(s) => s@,
                    None => Seq::<char>::empty(),
                },
            );
            if n.len() > MAX_PLACE_CHARS {
                r is Err && r->Err_0 is Validation && r->Err_0->Validation_0@ == "地点太长了，最多 60 个字"@
            } else if c.len() > MAX_CITY_CHARS {
                r is Err && r->Err_0 is Validation && r->Err_0->Validation_0@
                    == "城市名太长了，最多 24 个字"@
            } else {
                r is Ok && r->Ok_0.0@ == n && r->Ok_0.1@ == c
            }
        }),
{
    let name = match name {
        Some(s) => s,
        None => "",
    };
    let city = match city {
        Some(s) => s,
        None => "",
    };
    assert(""@ =~= Seq::<char>::empty()) by {
        reveal_strlit("");
    }
    let n = trimmed_within(name, MAX_PLACE_CHARS, "地点太长了，最多 60 个字")?;
    let c = trimmed_within(city, MAX_CITY_CHARS, "城市名太长了，最多 24 个字")?;
    Ok((n, c))
}

/// The four ambient sounds: `rain`, `night`, `fire`, `pad`.
pub open spec fn is_ambient_name(s: Seq<char>) -> bool {
    s == "rain"@ || s == "night"@ || s == "fire"@ || s == "pad"@
}

/// An ambient sound name: absent stays absent; it is trimmed and
/// ASCII-lower-cased; empty means "clear it"; otherwise it must be one of
/// the four known names.
pub fn normalize_ambient(raw: Option<&str>) -> (r: Result<Option<String>, AppError>)
    ensures
        match raw {
            None => r == Ok::<Option<String>, AppError>(None),
            Some(v) => {
                let name = ascii_lower(trim(v@));
                if name.len() == 0 {
                    r is Ok && r->Ok_0 is Some && r->Ok_0->0@.len() == 0
                } else if is_ambient_name(name) {
                    r is Ok && r->Ok_0 is Some && r->Ok_0->0@ == name
                } else {
                    r is Err && r->Err_0 is Validation && r->Err_0->Validation_0@ == "没有这种氛围音"@
                }
            },
        },
{
    let value = match raw {
        Some(v) => v,
        None => return Ok(None),
    };
    let name = to_ascii_lower(&trim_chars(&chars_of(value)));
    if name.len() == 0 {
        return Ok(Some(string_of(&name)));
    }
    let known = chars_eq(&name, &chars_of("rain")) || chars_eq(&name, &chars_of("night"))
        || chars_eq(&name, &chars_of("fire")) || chars_eq(&name, &chars_of("pad"));
    if !known {
        return Err(AppError::validation("没有这种氛围音"));
    }
    Ok(Some(string_of(&name)))
}

// ------------------------------------------------------------------ tags

/// Whether `seen` already holds `name`, ignoring ASCII case.
pub open spec fn holds_ignoring_case(seen: Seq<Seq<char>>, name: Seq<char>) -> bool {
    exists|i: int| 0 <= i < seen.len() && eq_ignore_case(#[trigger] seen[i], name)
}

/// Tags as kept: each trimmed and cut to 32 characters, empty ones dropped,
/// a tag equal to an earlier one ignoring ASCII case dropped, and nothing
/// taken once 12 are kept.
pub open spec fn kept_tags(raw: Seq<Seq<char>>) -> Seq<Seq<char>>
    decreases raw.len(),
{
    if raw.len() == 0 {
        Seq::<Seq<char>>::empty()
    } else {
        let prev = kept_tags(raw.drop_last());
        let t = trim(raw.last());
        let name = if t.len() <= MAX_TAG_CHARS {
            t
        } else {
            t.take(MAX_TAG_CHARS as int)
        };
        if prev.len() >= MAX_TAGS || name.len() == 0 || holds_ignoring_case(prev, name) {
            prev
        } else {
            prev.push(name)
        }
    }
}

proof fn lemma_kept_tags_bounded(raw: Seq<Seq<char>>)
    ensures
        kept_tags(raw).len() <= MAX_TAGS,
    decreases raw.len(),
{
    if raw.len() > 0 {
        lemma_kept_tags_bounded(raw.drop_last());
    }
}

proof fn lemma_kept_tags_full(raw: Seq<Seq<char>>, n: int)
    requires
        0 <= n <= raw.len(),
        kept_tags(raw.take(n)).len() >= MAX_TAGS,
    ensures
        kept_tags(raw) == kept_tags(raw.take(n)),
    decreases raw.len() - n,
{
    if n < raw.len() {
        assert(raw.take(n + 1).drop_last() =~= raw.take(n));
        lemma_kept_tags_full(raw, n + 1);
    } else {
        assert(raw.take(n) =~= raw);
    }
}

/// No two of the tags are equal ignoring ASCII case.
pub open spec fn distinct_ignoring_case(tags: Seq<Seq<char>>) -> bool {
    forall|i: int, j: int|
        0 <= i < j < tags.len() ==> !eq_ignore_case(#[trigger] tags[i], #[trigger] tags[j])
}

/// Law: kept tags never repeat one another, ignoring ASCII case, wherever
/// the repeats stood in the input; and each is a non-empty tag of at most
/// 32 characters.
pub proof fn kept_tags_are_distinct(raw: Seq<Seq<char>>)
    ensures
        distinct_ignoring_case(kept_tags(raw)),
        forall|i: int|
            0 <= i < kept_tags(raw).len() ==> 0 < (#[trigger] kept_tags(raw)[i]).len() <= MAX_TAG_CHARS,
    decreases raw.len(),
{
    if raw.len() > 0 {
        let prev = kept_tags(raw.drop_last());
        kept_tags_are_distinct(raw.drop_last());
        let k = kept_tags(raw);
        if k != prev {
            let name = k.last();
            assert(k == prev.push(name));
            assert(!holds_ignoring_case(prev, name));
            assert forall|i: int, j: int|
                0 <= i < j < k.len() implies !eq_ignore_case(#[trigger] k[i], #[trigger] k[j]) by {
                if j == k.len() - 1 {
                    assert(k[i] == prev[i]);
                    assert(!eq_ignore_case(prev[i], name));
                } else {
                    assert(k[i] == prev[i] && k[j] == prev[j]);
                }
            }
            assert forall|i: int| 0 <= i < k.len() implies 0 < (#[trigger] k[i]).len() <= MAX_TAG_CHARS by {
                if i < prev.len() {
                    assert(k[i] == prev[i]);
                }
            }
        }
    }
}

/// A tag as it is kept: trimmed and cut to 32 characters.
pub open spec fn tag_name(raw: Seq<char>) -> Seq<char> {
    let t = trim(raw);
    if t.len() <= MAX_TAG_CHARS {
        t
    } else {
        t.take(MAX_TAG_CHARS as int)
    }
}

/// Law: no tag is lost and none is made up. Every given tag that is not
/// empty once trimmed is among the kept ones (ignoring ASCII case) unless
/// 12 tags are kept already; and every kept tag is a given tag, trimmed and
/// cut to 32 characters.
pub proof fn kept_tags_cover_the_input(raw: Seq<Seq<char>>)
    ensures
        forall|n: int|
            0 <= n < raw.len() && tag_name(#[trigger] raw[n]).len() > 0 ==> kept_tags(raw).len()
                == MAX_TAGS || holds_ignoring_case(kept_tags(raw), tag_name(raw[n])),
        forall|i: int|
            0 <= i < kept_tags(raw).len() ==> exists|n: int|
                0 <= n < raw.len() && #[trigger] kept_tags(raw)[i] == tag_name(#[trigger] raw[n]),
    decreases raw.len(),
{
    if raw.len() > 0 {
        let prev = raw.drop_last();
        let last = raw.len() - 1;
        kept_tags_cover_the_input(prev);
        lemma_kept_tags_bounded(prev);
        let p = kept_tags(prev);
        let k = kept_tags(raw);
        let name = tag_name(raw[last]);
        assert(raw.last() == raw[last]);
        assert(k == p || k == p.push(name));
        assert(forall|i: int| 0 <= i < p.len() ==> k[i] == p[i]);
        assert forall|n: int|
            0 <= n < raw.len() && tag_name(#[trigger] raw[n]).len() > 0 implies k.len() == MAX_TAGS
                || holds_ignoring_case(k, tag_name(raw[n])) by {
            if n < last {
                assert(raw[n] == prev[n]);
                if p.len() == MAX_TAGS {
                    assert(k == p);
                } else {
                    let w = choose|i: int| 0 <= i < p.len() && eq_ignore_case(#[trigger] p[i], tag_name(raw[n]));
                    assert(k[w] == p[w]);
                }
            } else {
                if p.len() >= MAX_TAGS {
                    assert(k == p);
                } else if holds_ignoring_case(p, name) {
                    assert(k == p);
                } else {
                    assert(k == p.push(name));
                    assert(k[p.len() as int] == name);
                    assert(eq_ignore_case(k[p.len() as int], name));
                }
            }
        }
        assert forall|i: int| 0 <= i < k.len() implies exists|n: int|
            0 <= n < raw.len() && #[trigger] k[i] == tag_name(#[trigger] raw[n]) by {
            if i < p.len() {
                let n = choose|n: int| 0 <= n < prev.len() && #[trigger] p[i] == tag_name(#[trigger] prev[n]);
                assert(raw[n] == prev[n]);
            } else {
                assert(k[i] == name);
            }
        }
    }
}

/// Tags, normalised: trimmed, cut to 32 characters, empty ones and ones
/// that repeat an earlier tag ignoring ASCII case dropped, at most 12.
pub fn normalize_tags(raw: Vec<String>) -> (tags: Vec<String>)
    ensures
        string_views(tags@) == kept_tags(string_views(raw@)),
        tags@.len() <= MAX_TAGS,
        distinct_ignoring_case(string_views(tags@)),
{
    let ghost all = string_views(raw@);
    let mut seen: Vec<String> = Vec::new();
    let mut k: usize = 0;
    assert(all.take(0) =~= Seq::<Seq<char>>::empty());
    while k < raw.len()
        invariant
            all == string_views(raw@),
            k <= raw@.len(),
            string_views(seen@) == kept_tags(all.take(k as int)),
            seen@.len() < MAX_TAGS,
        decreases raw@.len() - k,
    {
        assert(all.take(k + 1).drop_last() =~= all.take(k as int));
        assert(all.take(k + 1).last() == raw@[k as int]@);
        let name = take_chars(&trim_chars(&chars_of(raw[k].as_str())), MAX_TAG_CHARS);
        if name.len() > 0 {
            let mut found = false;
            let mut j: usize = 0;
            while j < seen.len()
                invariant
                    j <= seen@.len(),
                    !found ==> forall|i: int|
                        0 <= i < j ==> !eq_ignore_case(#[trigger] string_views(seen@)[i], name@),
                    found ==> holds_ignoring_case(string_views(seen@), name@),
                decreases seen@.len() - j,
            {
                if !found && eq_ignore_ascii_case(&chars_of(seen[j].as_str()), &name) {
                    found = true;
                    assert(string_views(seen@)[j as int] == seen@[j as int]@);
                }
                j = j + 1;
            }
            if !found {
                let ghost before = seen@;
                seen.push(string_of(&name));
                assert(string_views(seen@) =~= string_views(before).push(name@));
            }
        }
        k = k + 1;
        if seen.len() >= MAX_TAGS {
            proof {
                lemma_kept_tags_full(all, k as int);
                kept_tags_are_distinct(all);
            }
            return seen;
        }
    }
    assert(all.take(raw@.len() as int) =~= all);
    proof {
        kept_tags_are_distinct(all);
    }
    seen
}

// ------------------------------------------------------------------ excerpts

/// The runs between whitespace characters, empty runs kept.
pub open spec fn split_ws(s: Seq<char>) -> Seq<Seq<char>>
    decreases s.len(),
{
    if s.len() == 0 {
        seq![Seq::<char>::empty()]
    } else {
        let prev = split_ws(s.drop_last());
        if is_ws(s.last()) {
            prev.push(Seq::<char>::empty())
        } else {
            prev.update(prev.len() - 1, prev.last().push(s.last()))
        }
    }
}

/// The non-empty pieces, in order.
pub open spec fn non_empty(parts: Seq<Seq<char>>) -> Seq<Seq<char>>
    decreases parts.len(),
{
    if parts.len() == 0 {
        Seq::<Seq<char>>::empty()
    } else if parts.last().len() > 0 {
        non_empty(parts.drop_last()).push(parts.last())
    } else {
        non_empty(parts.drop_last())
    }
}

/// The words of a text (`str::split_whitespace`).
pub open spec fn words(s: Seq<char>) -> Seq<Seq<char>> {
    non_empty(split_ws(s))
}

/// The pieces joined with single spaces.
pub open spec fn join_spaced(parts: Seq<Seq<char>>) -> Seq<char>
    decreases parts.len(),
{
    if parts.len() == 0 {
        Seq::<char>::empty()
    } else if parts.len() == 1 {
        parts[0]
    } else {
        join_spaced(parts.drop_last()) + seq![' '] + parts.last()
    }
}

/// The excerpt of a text: its words on one line, single-spaced; cut to 80
/// characters with a `…` when longer.
pub open spec fn excerpt(content: Seq<char>) -> Seq<char> {
    let flat = join_spaced(words(content));
    if flat.len() <= EXCERPT_CHARS {
        flat
    } else {
        flat.take(EXCERPT_CHARS as int) + seq!['…']
    }
}

proof fn lemma_split_ws_len(s: Seq<char>)
    ensures
        split_ws(s).len() >= 1,
    decreases s.len(),
{
    if s.len() > 0 {
        lemma_split_ws_len(s.drop_last());
    }
}

/// The words of a text joined by single spaces (`split_whitespace` + `join(" ")`).
fn flatten_words(s: &[char]) -> (r: Vec<char>)
    ensures
        r@ == join_spaced(words(s@)),
{
    // `out` holds the finished words joined; `cur` the word being read.
    let mut out: Vec<char> = Vec::new();
    let mut cur: Vec<char> = Vec::new();
    let ghost mut done: Seq<Seq<char>> = Seq::empty();
    assert(s@.take(0) =~= Seq::<char>::empty());
    assert(split_ws(s@.take(0)) =~= done.push(cur@));
    for i in 0..s.len()
        invariant
            split_ws(s@.take(i as int)) == done.push(cur@),
            out@ == join_spaced(non_empty(done)),
    {
        let c = s[i];
        assert(s@.take(i + 1).drop_last() =~= s@.take(i as int));
        assert(s@.take(i + 1).last() == c);
        if is_whitespace(c) {
            let ghost old_done = done;
            if cur.len() > 0 {
                if out.len() > 0 {
                    out.push(' ');
                }
                push_chars(&mut out, &cur);
                proof {
                    lemma_non_empty_pieces(old_done);
                    lemma_join_push(non_empty(old_done), cur@);
                }
            }
            proof {
                done = old_done.push(cur@);
                assert(done.drop_last() =~= old_done);
            }
            cur = Vec::new();
            assert(split_ws(s@.take(i + 1)) =~= done.push(cur@));
        } else {
            let ghost old_cur = cur@;
            cur.push(c);
            assert(done.push(cur@) =~= done.push(old_cur).update(done.len() as int, old_cur.push(c)));
        }
    }
    assert(s@.take(s@.len() as int) =~= s@);
    let ghost final_done = done.push(cur@);
    assert(final_done.drop_last() =~= done);
    if cur.len() > 0 {
        if out.len() > 0 {
            out.push(' ');
        }
        push_chars(&mut out, &cur);
        proof {
            lemma_non_empty_pieces(done);
            lemma_join_push(non_empty(done), cur@);
        }
    }
    out
}

/// Joining one more piece adds a space first unless nothing was joined yet.
proof fn lemma_join_push(parts: Seq<Seq<char>>, last: Seq<char>)
    requires
        last.len() > 0,
        forall|i: int| 0 <= i < parts.len() ==> (#[trigger] parts[i]).len() > 0,
    ensures
        join_spaced(parts.push(last)) == if join_spaced(parts).len() > 0 {
            join_spaced(parts) + seq![' '] + last
        } else {
            last
        },
{
    assert(parts.push(last).drop_last() =~= parts);
    if parts.len() == 0 {
    } else {
        lemma_join_nonempty(parts);
    }
}

proof fn lemma_join_nonempty(parts: Seq<Seq<char>>)
    requires
        parts.len() > 0,
        forall|i: int| 0 <= i < parts.len() ==> (#[trigger] parts[i]).len() > 0,
    ensures
        join_spaced(parts).len() > 0,
    decreases parts.len(),
{
    if parts.len() > 1 {
        assert(parts.last().len() > 0);
    } else {
        assert(parts[0].len() > 0);
    }
}

proof fn lemma_non_empty_pieces(parts: Seq<Seq<char>>)
    ensures
        forall|i: int|
            0 <= i < non_empty(parts).len() ==> (#[trigger] non_empty(parts)[i]).len() > 0,
    decreases parts.len(),
{
    if parts.len() > 0 {
        lemma_non_empty_pieces(parts.drop_last());
        let prev = non_empty(parts.drop_last());
        if parts.last().len() > 0 {
            assert forall|i: int| 0 <= i < prev.push(parts.last()).len() implies (
            #[trigger] prev.push(parts.last())[i]).len() > 0 by {
                if i < prev.len() {
                    assert(prev.push(parts.last())[i] == prev[i]);
                }
            }
        }
    }
}

/// The excerpt shown on the timeline.
pub fn make_excerpt(content: &str) -> (r: String)
    ensures
        r@ == excerpt(content@),
{
    let flat = flatten_words(&chars_of(content));
    if flat.len() <= EXCERPT_CHARS {
        return string_of(&flat);
    }
    let mut cut = take_chars(&flat, EXCERPT_CHARS);
    cut.push('…');
    string_of(&cut)
}

} // verus!

verus! {

// ------------------------------------------------------------------ search

/// One character as it stands in a `LIKE` pattern: `\`, `%` and `_` get a
/// backslash in front.
pub open spec fn like_char(c: char) -> Seq<char> {
    if c == '\\' || c == '%' || c == '_' {
        seq!['\\', c]
    } else {
        seq![c]
    }
}

/// A text with the `LIKE` wildcards escaped.
pub open spec fn like_escaped(s: Seq<char>) -> Seq<char>
    decreases s.len(),
{
    if s.len() == 0 {
        Seq::<char>::empty()
    } else {
        like_escaped(s.drop_last()) + like_char(s.last())
    }
}

/// Escapes the wildcards of a `LIKE` pattern, so that `%` and `_` typed by
/// a user match only themselves.
pub fn escape_like(input: &str) -> (r: String)
    ensures
        r@ == like_escaped(input@),
{
    let s = chars_of(input);
    let mut out: Vec<char> = Vec::new();
    for i in 0..s.len()
        invariant
            s@ == input@,
            out@ == like_escaped(s@.take(i as int)),
    {
        let c = s[i];
        assert(s@.take(i + 1).drop_last() =~= s@.take(i as int));
        if c == '\\' || c == '%' || c == '_' {
            out.push('\\');
        }
        out.push(c);
        assert(out@ =~= like_escaped(s@.take(i + 1)));
    }
    assert(s@.take(s@.len() as int) =~= s@);
    string_of(&out)
}

/// The query string of the moment list (times in nanoseconds since the
/// Unix epoch).
pub struct ListQuery {
    pub q: Option<String>,
    pub tags: Option<String>,
    pub from: Option<i128>,
    pub to: Option<i128>,
    pub order: Option<String>,
    pub limit: Option<i64>,
    pub offset: Option<i64>,
}

/// The list filter; `q` is already escaped for `LIKE`.
pub struct MomentFilter {
    pub q: Option<String>,
    pub tags: Option<Vec<String>>,
    pub from: Option<i128>,
    pub to: Option<i128>,
    pub ascending: bool,
    pub limit: i64,
    pub offset: i64,
}

pub open spec fn opt_view(v: Option<String>) -> Option<Seq<char>> {
    match v {
        Some(s) => Some(s@),
        None => None,
    }
}

/// A query text: trimmed, an empty one counting as none.
pub open spec fn query_text(v: Option<Seq<char>>) -> Option<Seq<char>> {
    match v {
        Some(s) => if trim(s).len() > 0 {
            Some(trim(s))
        } else {
            None
        },
        None => None,
    }
}

/// A comma-separated list: pieces trimmed, empty ones dropped, and an empty
/// list counting as none.
pub open spec fn query_list(v: Option<Seq<char>>) -> Option<Seq<Seq<char>>> {
    match v {
        Some(s) => {
            let l = crate::text::trimmed_nonempty(crate::text::split_on(s, ','));
            if l.len() > 0 {
                Some(l)
            } else {
                None
            }
        },
        None => None,
    }
}

/// A text trimmed, or `None` when nothing is left.
pub fn text_query(v: Option<&str>) -> (r: Option<String>)
    ensures
        opt_view(r) == query_text(
            match v {
                Some(s) => Some(s@),
                None => None,
            },
        ),
{
    match v {
        Some(s) => {
            let t = trim_chars(&chars_of(s));
            if t.len() > 0 {
                Some(string_of(&t))
            } else {
                None
            }
        },
        None => None,
    }
}

/// A comma-separated list, or `None` when no piece is left.
pub fn list_query(v: Option<&str>) -> (r: Option<Vec<String>>)
    ensures
        match query_list(
            match v {
                Some(s) => Some(s@),
                None => None,
            },
        ) {
            Some(l) => r is Some && string_views(r->0@) == l,
            None => r is None,
        },
{
    match v {
        Some(s) => {
            let l = crate::text::split_trimmed(&chars_of(s), ',');
            if l.len() > 0 {
                Some(l)
            } else {
                None
            }
        },
        None => None,
    }
}

/// The list filter for a query: the keyword trimmed and escaped, the tag
/// list split, `order=asc` (any ASCII case) for oldest first, the page size
/// 200 by default and clamped to 1..=1000, the offset 0 by default and
/// never negative.
pub fn normalize_filter(query: ListQuery) -> (f: MomentFilter)
    ensures
        match query_text(opt_view(query.q)) {
            Some(q) => f.q is Some && f.q->0@ == like_escaped(q),
            None => f.q is None,
        },
        match query_list(opt_view(query.tags)) {
            Some(l) => f.tags is Some && string_views(f.tags->0@) == l,
            None => f.tags is None,
        },
        f.from == query.from,
        f.to == query.to,
        f.ascending == (match query.order {
            Some(o) => eq_ignore_case(o@, "asc"@),
            None => false,
        }),
        f.limit == crate::config::clamp(
            match query.limit {
                Some(l) => l as int,
                None => DEFAULT_LIMIT as int,
            },
            1,
            MAX_LIMIT as int,
        ),
        f.offset == (match query.offset {
            Some(o) => if o < 0 {
                0
            } else {
                o as int
            },
            None => 0,
        }),
{
    let q = match text_query(
        match &query.q {
            Some(s) => Some(s.as_str()),
            None => None,
        },
    ) {
        Some(t) => Some(escape_like(t.as_str())),
        None => None,
    };
    let tags = list_query(
        match &query.tags {
            Some(s) => Some(s.as_str()),
            None => None,
        },
    );
    let ascending = match &query.order {
        Some(o) => eq_ignore_ascii_case(&chars_of(o.as_str()), &chars_of("asc")),
        None => false,
    };
    let limit = match query.limit {
        Some(l) => l,
        None => DEFAULT_LIMIT,
    };
    let limit = if limit < 1 {
        1
    } else if limit > MAX_LIMIT {
        MAX_LIMIT
    } else {
        limit
    };
    let offset = match query.offset {
        Some(o) => if o < 0 {
            0
        } else {
            o
        },
        None => 0,
    };
    MomentFilter { q, tags, from: query.from, to: query.to, ascending, limit, offset }
}

// ------------------------------------------------------------------ time

/// Nanoseconds in twenty years of 365 days.
pub const TWENTY_YEARS_NANOS: i128 = 365 * 20 * 86_400 * 1_000_000_000;

/// When a moment happened (nanoseconds since the Unix epoch): `now` when
/// not given; otherwise no earlier than the epoch and no later than twenty
/// years from now.
pub fn validate_time(value: Option<i128>, now: i128) -> (r: Result<i128, AppError>)
    requires
        now + TWENTY_YEARS_NANOS <= i128::MAX,
    ensures
        match value {
            None => r == Ok::<i128, AppError>(now),
            Some(t) => if t < 0 || t > now + TWENTY_YEARS_NANOS {
                r is Err && r->Err_0 is Validation && r->Err_0->Validation_0@
                    == "时间似乎不太对，请重新选择"@
            } else {
                r == Ok::<i128, AppError>(t)
            },
        },
{
    match value {
        None => Ok(now),
        Some(t) => {
            if t < 0 || t > now + TWENTY_YEARS_NANOS {
                return Err(AppError::validation("时间似乎不太对，请重新选择"));
            }
            Ok(t)
        },
    }
}

/// A moment must keep some content: a title, some text or some media.
pub fn check_not_empty(title: &str, content: &str, has_media: bool, message: &str) -> (r: Result<
    (),
    AppError,
>)
    ensures
        r is Ok <==> (title@.len() > 0 || content@.len() > 0 || has_media),
        r is Err ==> r->Err_0 is Validation && r->Err_0->Validation_0@ == message@,
{
    if chars_of(title).len() == 0 && chars_of(content).len() == 0 && !has_media {
        return Err(AppError::validation(message));
    }
    Ok(())
}

// ------------------------------------------------------------------ byte ranges

/// `bytes=` in a `Range` header.
pub open spec fn range_prefix() -> Seq<char> {
    seq!['b', 'y', 't', 'e', 's', '=']
}

pub open spec fn parse_u64_text(s: Seq<char>) -> Option<int> {
    crate::text::parse_unsigned(vstd::utf8::encode_utf8(s), u64::MAX as int)
}

pub open spec fn sat_sub(a: int, b: int) -> int {
    if a >= b {
        a - b
    } else {
        0
    }
}

/// The single byte range a `Range` header asks for, clamped to the file:
/// `bytes=N-M`, `bytes=N-` or `bytes=-N`. Several ranges, a malformed
/// header or a range outside the file give `None` (the whole file is sent).
pub open spec fn range_of(header: Seq<char>, total: int) -> Option<(int, int)> {
    if header.len() < 6 || header.take(6) != range_prefix() {
        None
    } else {
        let ranges = header.skip(6);
        if !crate::text::lacks(ranges, ',') {
            None
        } else if crate::text::lacks(ranges, '-') {
            None
        } else {
            let i = choose|i: int| crate::text::is_first_index(ranges, '-', i);
            let left = trim(ranges.take(i));
            let right = trim(ranges.skip(i + 1));
            let bounds: Option<(int, int)> = if left.len() == 0 {
                match parse_u64_text(right) {
                    Some(n) => Some((sat_sub(total, n), sat_sub(total, 1))),
                    None => None,
                }
            } else if right.len() == 0 {
                match parse_u64_text(left) {
                    Some(a) => Some((a, sat_sub(total, 1))),
                    None => None,
                }
            } else {
                match (parse_u64_text(left), parse_u64_text(right)) {
                    (Some(a), Some(b)) => Some((a, b)),
                    _ => None,
                }
            };
            match bounds {
                Some((start, end)) => if total == 0 || start > end || start >= total {
                    None
                } else {
                    Some((start, if end < total - 1 {
                        end
                    } else {
                        total - 1
                    }))
                },
                None => None,
            }
        }
    }
}

fn parse_u64_chars(s: &[char]) -> (r: Option<u64>)
    ensures
        match parse_u64_text(s@) {
            Some(v) => r == Some(v as u64),
            None => r is None,
        },
{
    let text = string_of(s);
    crate::text::parse_unsigned_bytes(text.as_str().as_bytes(), u64::MAX)
}

/// Reads a `Range` header against a file of `total` bytes.
pub fn parse_range(header: Option<&str>, total: u64) -> (r: Option<(u64, u64)>)
    ensures
        match header {
            None => r is None,
            Some(h) => match range_of(h@, total as int) {
                Some((a, b)) => r == Some((a as u64, b as u64)),
                None => r is None,
            },
        },
{
    let raw = match header {
        Some(h) => chars_of(h),
        None => return None,
    };
    let prefix = chars_of("bytes=");
    proof {
        reveal_strlit("bytes=");
    }
    assert(prefix@ =~= range_prefix());
    if raw.len() < 6 || !chars_eq(&crate::text::copy_chars(&raw, 0, 6), &prefix) {
        assert(raw.len() >= 6 ==> raw@.subrange(0, 6) =~= raw@.take(6));
        return None;
    }
    assert(raw@.subrange(0, 6) =~= raw@.take(6));
    let ranges = crate::text::copy_chars(&raw, 6, raw.len());
    assert(ranges@ =~= raw@.skip(6));
    match crate::text::find_char(&ranges, ',') {
        Some(_) => return None,
        None => {},
    }
    let dash = match crate::text::find_char(&ranges, '-') {
        Some(i) => i,
        None => return None,
    };
    proof {
        assert forall|j: int| crate::text::is_first_index(ranges@, '-', j) implies j == dash by {
            crate::text::lemma_first_index_unique(ranges@, '-', dash as int, j);
        }
    }
    let left = trim_chars(&crate::text::copy_chars(&ranges, 0, dash));
    let right = trim_chars(&crate::text::copy_chars(&ranges, dash + 1, ranges.len()));
    assert(ranges@.subrange(0, dash as int) =~= ranges@.take(dash as int));
    assert(ranges@.subrange(dash + 1, ranges@.len() as int) =~= ranges@.skip(dash + 1));
    let (start, end) = if left.len() == 0 {
        let suffix = parse_u64_chars(&right)?;
        (
            if total >= suffix {
                total - suffix
            } else {
                0
            },
            if total >= 1 {
                total - 1
            } else {
                0
            },
        )
    } else if right.len() == 0 {
        (parse_u64_chars(&left)?, if total >= 1 {
            total - 1
        } else {
            0
        })
    } else {
        let a = parse_u64_chars(&left)?;
        let b = parse_u64_chars(&right)?;
        (a, b)
    };
    if total == 0 || start > end || start >= total {
        return None;
    }
    Some((start, if end < total - 1 {
        end
    } else {
        total - 1
    }))
}

} // verus!

verus! {

// ------------------------------------------------------------------ ids and sharing

/// The last `count` hex digits of `n`, most significant first, zero-padded.
pub open spec fn hex_digits_of(n: nat, count: nat) -> Seq<u8>
    decreases count,
{
    if count == 0 {
        Seq::<u8>::empty()
    } else {
        hex_digits_of(n / 16, (count - 1) as nat).push(crate::hex::hex_digit((n % 16) as int))
    }
}

/// The hyphenated text of a UUID (`8-4-4-4-12` lower-case hex digits).
pub open spec fn uuid_text(id: u128) -> Seq<char> {
    let d = ascii_chars(hex_digits_of(id as nat, 32));
    d.subrange(0, 8) + seq!['-'] + d.subrange(8, 12) + seq!['-'] + d.subrange(12, 16) + seq!['-']
        + d.subrange(16, 20) + seq!['-'] + d.subrange(20, 32)
}

proof fn lemma_hex_digits_len(n: nat, count: nat)
    ensures
        hex_digits_of(n, count).len() == count,
    decreases count,
{
    if count > 0 {
        lemma_hex_digits_len(n / 16, (count - 1) as nat);
    }
}

fn push_hex_digits(n: u128, count: usize, out: &mut Vec<u8>)
    ensures
        final(out)@ == old(out)@ + hex_digits_of(n as nat, count as nat),
    decreases count,
{
    if count > 0 {
        push_hex_digits(n / 16, count - 1, out);
        let v = (n % 16) as u8;
        let d = if v < 10 {
            48 + v
        } else {
            87 + v
        };
        out.push(d);
        assert(final(out)@ =~= old(out)@ + hex_digits_of(n as nat, count as nat));
    }
}

/// The text of a UUID held as a number (`Uuid::from_u128(id).to_string()`).
pub fn uuid_string(id: u128) -> (s: String)
    ensures
        s@ == uuid_text(id),
{
    let mut digits: Vec<u8> = Vec::new();
    push_hex_digits(id, 32, &mut digits);
    proof {
        lemma_hex_digits_len(id as nat, 32);
    }
    assert(digits@ =~= hex_digits_of(id as nat, 32));
    let d = ascii_to_chars(&digits);
    let mut out = crate::text::copy_chars(&d, 0, 8);
    out.push('-');
    push_chars(&mut out, &crate::text::copy_chars(&d, 8, 12));
    out.push('-');
    push_chars(&mut out, &crate::text::copy_chars(&d, 12, 16));
    out.push('-');
    push_chars(&mut out, &crate::text::copy_chars(&d, 16, 20));
    out.push('-');
    push_chars(&mut out, &crate::text::copy_chars(&d, 20, 32));
    assert(out@ =~= uuid_text(id));
    string_of(&out)
}

/// The address a shared page loads one media file from: it carries the
/// share token, so it passes without a login.
pub open spec fn shared_media_url_of(token: Seq<char>, media_id: u128, thumb: bool) -> Seq<char> {
    "/api/shared/"@ + token + "/media/"@ + uuid_text(media_id) + if thumb {
        "?thumb=1"@
    } else {
        Seq::<char>::empty()
    }
}

pub fn shared_media_url(token: &str, media_id: u128, thumb: bool) -> (url: String)
    ensures
        url@ == shared_media_url_of(token@, media_id, thumb),
{
    let mut out = chars_of("/api/shared/");
    push_chars(&mut out, &chars_of(token));
    push_chars(&mut out, &chars_of("/media/"));
    push_chars(&mut out, &chars_of(uuid_string(media_id).as_str()));
    if thumb {
        push_chars(&mut out, &chars_of("?thumb=1"));
    }
    assert(out@ =~= shared_media_url_of(token@, media_id, thumb));
    string_of(&out)
}

/// The share token of a moment: the one it already has (links already sent
/// keep working), or a fresh random one of 32 hex digits.
pub fn share_token_for(existing: Option<String>) -> (token: String)
    ensures
        match existing {
            Some(t) => token == t,
            None => token@.len() == 32 && forall|i: int|
                0 <= i < 32 ==> crate::crypto::is_hex_lower_char(#[trigger] token@[i]),
        },
{
    match existing {
        Some(t) => t,
        None => crate::crypto::uuid_v4_simple_text(),
    }
}

/// Whether `after` is the shared-page form of `before`: the same item with
/// its file and thumbnail URLs pointing at the share route.
pub open spec fn shared_form(after: crate::media::MediaDto, before: crate::media::MediaDto, token: Seq<char>) -> bool {
    &&& after.id == before.id
    &&& after.kind == before.kind
    &&& after.role == before.role
    &&& after.url@ == shared_media_url_of(token, before.id, false)
    &&& match before.thumb_url {
        Some(_) => after.thumb_url is Some && after.thumb_url->0@ == shared_media_url_of(
            token,
            before.id,
            true,
        ),
        None => after.thumb_url is None,
    }
    &&& after.mime_type == before.mime_type
    &&& after.width == before.width
    &&& after.height == before.height
    &&& after.duration_ms == before.duration_ms
    &&& after.size_bytes == before.size_bytes
    &&& after.position == before.position
}

fn to_shared(item: crate::media::MediaDto, token: &str) -> (r: crate::media::MediaDto)
    ensures
        shared_form(r, item, token@),
{
    let url = shared_media_url(token, item.id, false);
    let thumb_url = match &item.thumb_url {
        Some(_) => Some(shared_media_url(token, item.id, true)),
        None => None,
    };
    crate::media::MediaDto { url, thumb_url, ..item }
}

/// The media of a shared moment, with every URL routed through the share
/// token; the music keeps its thumbnail as it is.
pub fn share_media_urls(
    media: Vec<crate::media::MediaDto>,
    music: Option<crate::media::MediaDto>,
    token: &str,
) -> (r: (Vec<crate::media::MediaDto>, Option<crate::media::MediaDto>))
    ensures
        r.0@.len() == media@.len(),
        forall|i: int| 0 <= i < media@.len() ==> shared_form(#[trigger] r.0@[i], media@[i], token@),
        match music {
            Some(m) => r.1 is Some && r.1->0.url@ == shared_media_url_of(token@, m.id, false)
                && r.1->0.thumb_url == m.thumb_url && r.1->0.id == m.id,
            None => r.1 is None,
        },
{
    let mut out: Vec<crate::media::MediaDto> = Vec::new();
    let mut rest = media;
    let ghost all = rest@;
    let ghost mut taken: Seq<crate::media::MediaDto> = Seq::empty();
    assert(taken + rest@ =~= all);
    while rest.len() > 0
        invariant
            taken + rest@ == all,
            out@.len() == taken.len(),
            forall|i: int| 0 <= i < out@.len() ==> shared_form(#[trigger] out@[i], all[i], token@),
        decreases rest@.len(),
    {
        let ghost before_rest = rest@;
        let item = rest.remove(0);
        let ghost g = item;
        assert(all[taken.len() as int] == before_rest[0]);
        let shared = to_shared(item, token);
        out.push(shared);
        proof {
            taken = taken.push(g);
        }
        assert(taken + rest@ =~= all);
    }
    assert(taken =~= all);
    let music = match music {
        Some(m) => {
            let url = shared_media_url(token, m.id, false);
            Some(crate::media::MediaDto { url, ..m })
        },
        None => None,
    };
    (out, music)
}

} // verus!

verus! {

/// The media file a shared page asks for: it must belong to the shared
/// moment; the thumbnail falls back to the file itself. Gives the relative
/// path and the MIME type.
pub open spec fn find_media(media: Seq<crate::media::MediaRow>, id: u128) -> Option<
    crate::media::MediaRow,
>
    decreases media.len(),
{
    if media.len() == 0 {
        None
    } else if media[0].id == id {
        Some(media[0])
    } else {
        find_media(media.drop_first(), id)
    }
}

pub fn shared_file(media: &[crate::media::MediaRow], media_id: u128, thumb: bool) -> (r: Result<
    (String, String),
    AppError,
>)
    ensures
        match find_media(media@, media_id) {
            Some(item) => r is Ok && r->Ok_0.0@ == (if thumb && item.thumb_path is Some {
                item.thumb_path->0@
            } else {
                item.file_path@
            }) && r->Ok_0.1@ == item.mime_type@,
            None => r is Err && r->Err_0 == (AppError::NotFound {
                resource: r->Err_0->resource,
                id: r->Err_0->id,
            }) && r->Err_0->resource@ == "画面"@ && r->Err_0->id@ == uuid_text(media_id),
        },
{
    let mut i: usize = 0;
    assert(media@.skip(0) =~= media@);
    while i < media.len()
        invariant
            i <= media@.len(),
            find_media(media@, media_id) == find_media(media@.skip(i as int), media_id),
        decreases media@.len() - i,
    {
        assert(media@.skip(i as int)[0] == media@[i as int]);
        assert(media@.skip(i as int).drop_first() =~= media@.skip(i + 1));
        let item = &media[i];
        if item.id == media_id {
            let rel = if thumb {
                match &item.thumb_path {
                    Some(t) => t.clone(),
                    None => item.file_path.clone(),
                }
            } else {
                item.file_path.clone()
            };
            return Ok((rel, item.mime_type.clone()));
        }
        i = i + 1;
    }
    Err(AppError::not_found("画面", uuid_string(media_id)))
}

// ------------------------------------------------------------------ media order

/// A media item linked to a moment, with an optional position.
pub struct MediaLink {
    pub id: u128,
    pub position: Option<i32>,
}

pub open spec fn link_key(l: MediaLink) -> int {
    match l.position {
        Some(p) => p as int,
        None => 0,
    }
}

/// `x` placed after every element whose key is not greater than its own.
pub open spec fn insert_by_key(s: Seq<MediaLink>, x: MediaLink) -> Seq<MediaLink>
    decreases s.len(),
{
    if s.len() == 0 {
        seq![x]
    } else if link_key(x) < link_key(s.last()) {
        insert_by_key(s.drop_last(), x).push(s.last())
    } else {
        s.push(x)
    }
}

/// The links in a stable order of their positions (a missing position
/// counting as 0).
pub open spec fn sorted_links(s: Seq<MediaLink>) -> Seq<MediaLink>
    decreases s.len(),
{
    if s.len() == 0 {
        Seq::<MediaLink>::empty()
    } else {
        insert_by_key(sorted_links(s.drop_last()), s.last())
    }
}

/// Inserting at the place found by scanning from the back.
proof fn lemma_insert_at(s: Seq<MediaLink>, x: MediaLink, j: int)
    requires
        0 <= j <= s.len(),
        forall|k: int| j <= k < s.len() ==> link_key(x) < link_key(#[trigger] s[k]),
        j == 0 || link_key(s[j - 1]) <= link_key(x),
    ensures
        insert_by_key(s, x) == s.take(j).push(x) + s.skip(j),
    decreases s.len() - j,
{
    if j == s.len() {
        if s.len() > 0 {
            assert(!(link_key(x) < link_key(s.last())));
        }
        assert(s.take(j) =~= s);
        assert(s.skip(j) =~= Seq::<MediaLink>::empty());
        assert(s.take(j).push(x) + s.skip(j) =~= s.push(x));
    } else {
        let t = s.drop_last();
        assert(link_key(x) < link_key(s.last()));
        lemma_insert_at(t, x, j);
        assert(t.take(j) =~= s.take(j));
        assert(t.take(j).push(x) + t.skip(j) + seq![s.last()] =~= s.take(j).push(x) + s.skip(j));
    }
}

fn position_key(l: &MediaLink) -> (k: i64)
    ensures
        k == link_key(*l),
{
    match l.position {
        Some(p) => p as i64,
        None => 0,
    }
}

/// The ids of the media links in a stable order of their positions.
pub fn order_media_links(links: &[MediaLink]) -> (ids: Vec<u128>)
    ensures
        ids@ == sorted_links(links@).map_values(|l: MediaLink| l.id),
{
    let mut out: Vec<MediaLink> = Vec::new();
    let ghost all = links@;
    assert(all.take(0) =~= Seq::<MediaLink>::empty());
    for i in 0..links.len()
        invariant
            all == links@,
            out@ == sorted_links(all.take(i as int)),
    {
        let x = MediaLink { id: links[i].id, position: links[i].position };
        assert(x == links@[i as int]);
        let kx: i64 = position_key(&x);
        let mut j = out.len();
        while j > 0 && kx < position_key(&out[j - 1])
            invariant
                j <= out@.len(),
                kx == link_key(x),
                forall|k: int| j <= k < out@.len() ==> link_key(x) < link_key(#[trigger] out@[k]),
            decreases j,
        {
            j = j - 1;
        }
        proof {
            lemma_insert_at(out@, x, j as int);
        }
        assert(all.take(i + 1).drop_last() =~= all.take(i as int));
        out.insert(j, x);
        assert(out@ =~= sorted_links(all.take(i + 1)));
    }
    assert(all.take(links@.len() as int) =~= all);
    let mut ids: Vec<u128> = Vec::new();
    for k in 0..out.len()
        invariant
            ids@ == out@.take(k as int).map_values(|l: MediaLink| l.id),
    {
        ids.push(out[k].id);
        assert(ids@ =~= out@.take(k + 1).map_values(|l: MediaLink| l.id));
    }
    assert(out@.take(out@.len() as int) =~= out@);
    ids
}

// ------------------------------------------------------------------ small payloads

/// A tag with how many moments carry it.
pub struct TagWithCount {
    pub name: String,
    pub count: i64,
}

/// The answer to a share request.
pub struct ShareResponse {
    pub token: String,
}

/// The query of a shared media request: `thumb` asks for the thumbnail.
pub struct SharedMediaQuery {
    pub thumb: Option<String>,
}

/// The answer to "which city is this".
pub struct CityResponse {
    pub city: Option<String>,
}

// ------------------------------------------------------------------ writing a moment

/// What a create or update request brings, without the coordinates (which
/// the caller keeps; only whether any coordinate came along matters here).
pub struct MomentDraft {
    pub title: Option<String>,
    pub content: Option<String>,
    pub happened_at: Option<i128>,
    pub tags: Option<Vec<String>>,
    pub media: Option<Vec<MediaLink>>,
    pub ambient: Option<String>,
    pub location_name: Option<String>,
    pub city: Option<String>,
    /// Whether a latitude or a longitude came along.
    pub has_coordinates: bool,
}

/// A new moment, checked and normalised.
pub struct NewMoment {
    pub title: String,
    pub content: String,
    pub tags: Vec<String>,
    /// The media to attach, in the order of their positions.
    pub media_ids: Vec<u128>,
    pub happened_at: i128,
    pub place_name: String,
    pub city: String,
    /// The ambient sound; none when none (or an empty name) was given.
    pub ambient: Option<String>,
}

pub open spec fn text_or_empty(v: Option<String>) -> Seq<char> {
    match v {
        Some(s) => s@,
        None => Seq::<char>::empty(),
    }
}

pub open spec fn links_of(v: Option<Vec<MediaLink>>) -> Seq<MediaLink> {
    match v {
        Some(l) => l@,
        None => Seq::<MediaLink>::empty(),
    }
}

pub open spec fn tags_of(v: Option<Vec<String>>) -> Seq<Seq<char>> {
    match v {
        Some(t) => string_views(t@),
        None => Seq::<Seq<char>>::empty(),
    }
}

pub open spec fn ambient_name_of(v: Option<String>) -> Option<Seq<char>> {
    match v {
        Some(a) => Some(ascii_lower(trim(a@))),
        None => None,
    }
}

pub open spec fn bad_time(t: Option<i128>, now: i128) -> bool {
    t matches Some(v) && (v < 0 || v > now + TWENTY_YEARS_NANOS)
}

pub open spec fn bad_ambient(a: Option<Seq<char>>) -> bool {
    a matches Some(n) && n.len() > 0 && !is_ambient_name(n)
}

pub open spec fn is_validation(r: Result<NewMoment, AppError>, m: Seq<char>) -> bool {
    r is Err && r->Err_0 is Validation && r->Err_0->Validation_0@ == m
}

fn option_str(v: &Option<String>) -> (r: Option<&str>)
    ensures
        match v {
            Some(s) => r is Some && r->0@ == s@,
            None => r is None,
        },
{
    match v {
        Some(s) => Some(s.as_str()),
        None => None,
    }
}

fn copy_strings(v: &Vec<String>) -> (r: Vec<String>)
    ensures
        string_views(r@) == string_views(v@),
{
    let mut out: Vec<String> = Vec::new();
    for i in 0..v.len()
        invariant
            string_views(out@) == string_views(v@.take(i as int)),
    {
        let ghost before = out@;
        let copied = string_of(&chars_of(v[i].as_str()));
        out.push(copied);
        assert(string_views(out@) =~= string_views(before).push(copied@));
        assert(v@.take(i + 1) =~= v@.take(i as int).push(v@[i as int]));
        assert(string_views(v@.take(i + 1)) =~= string_views(v@.take(i as int)).push(v@[i as int]@));
    }
    assert(v@.take(v@.len() as int) =~= v@);
    out
}

/// Checks and normalises a new moment, in this order: the title, the text,
/// that something is there (a title, text or media), the time, the place
/// names, the ambient sound.
pub fn prepare_create(draft: &MomentDraft, now: i128) -> (r: Result<NewMoment, AppError>)
    requires
        now + TWENTY_YEARS_NANOS <= i128::MAX,
    ensures
        ({
            let title = trim(text_or_empty(draft.title));
            let content = trim(text_or_empty(draft.content));
            let links = links_of(draft.media);
            let name = trim(text_or_empty(draft.location_name));
            let city = trim(text_or_empty(draft.city));
            let ambient = ambient_name_of(draft.ambient);
            if title.len() > MAX_TITLE_CHARS {
                is_validation(r, "主题太长了，最多 120 个字"@)
            } else if content.len() > MAX_CONTENT_CHARS {
                is_validation(r, "文字太长了，最多 20000 个字"@)
            } else if title.len() == 0 && content.len() == 0 && links.len() == 0 {
                is_validation(r, "写点什么吧，一句话或一张照片都可以"@)
            } else if bad_time(draft.happened_at, now) {
                is_validation(r, "时间似乎不太对，请重新选择"@)
            } else if name.len() > MAX_PLACE_CHARS {
                is_validation(r, "地点太长了，最多 60 个字"@)
            } else if city.len() > MAX_CITY_CHARS {
                is_validation(r, "城市名太长了，最多 24 个字"@)
            } else if bad_ambient(ambient) {
                is_validation(r, "没有这种氛围音"@)
            } else {
                &&& r is Ok
                &&& r->Ok_0.title@ == title
                &&& r->Ok_0.content@ == content
                &&& string_views(r->Ok_0.tags@) == kept_tags(tags_of(draft.tags))
                &&& r->Ok_0.media_ids@ == sorted_links(links).map_values(|l: MediaLink| l.id)
                &&& r->Ok_0.happened_at == match draft.happened_at {
                    Some(t) => t,
                    None => now,
                }
                &&& r->Ok_0.place_name@ == name
                &&& r->Ok_0.city@ == city
                &&& match ambient {
                    Some(a) => if a.len() > 0 {
                        r->Ok_0.ambient is Some && r->Ok_0.ambient->0@ == a
                    } else {
                        r->Ok_0.ambient is None
                    },
                    None => r->Ok_0.ambient is None,
                }
            }
        }),
{
    assert(""@ =~= Seq::<char>::empty()) by {
        reveal_strlit("");
    }
    let title = match &draft.title {
        Some(t) => normalize_title(t.as_str())?,
        None => normalize_title("")?,
    };
    let content = match &draft.content {
        Some(c) => normalize_content(c.as_str())?,
        None => normalize_content("")?,
    };
    let tags = match &draft.tags {
        Some(t) => normalize_tags(copy_strings(t)),
        None => {
            let none: Vec<String> = Vec::new();
            assert(string_views(none@) =~= Seq::<Seq<char>>::empty());
            normalize_tags(none)
        },
    };
    let media_ids = match &draft.media {
        Some(m) => order_media_links(m.as_slice()),
        None => order_media_links(&[]),
    };
    proof {
        lemma_sorted_links_len(links_of(draft.media));
    }
    if chars_of(title.as_str()).len() == 0 && chars_of(content.as_str()).len() == 0
        && media_ids.len() == 0 {
        return Err(AppError::validation("写点什么吧，一句话或一张照片都可以"));
    }
    let happened_at = validate_time(draft.happened_at, now)?;
    let (place_name, city) = normalize_place_names(
        option_str(&draft.location_name),
        option_str(&draft.city),
    )?;
    let ambient = match normalize_ambient(option_str(&draft.ambient))? {
        Some(a) => if chars_of(a.as_str()).len() == 0 {
            None
        } else {
            Some(a)
        },
        None => None,
    };
    Ok(NewMoment { title, content, tags, media_ids, happened_at, place_name, city, ambient })
}

proof fn lemma_insert_by_key_len(s: Seq<MediaLink>, x: MediaLink)
    ensures
        insert_by_key(s, x).len() == s.len() + 1,
    decreases s.len(),
{
    if s.len() > 0 && link_key(x) < link_key(s.last()) {
        lemma_insert_by_key_len(s.drop_last(), x);
    }
}

proof fn lemma_sorted_links_len(s: Seq<MediaLink>)
    ensures
        sorted_links(s).len() == s.len(),
    decreases s.len(),
{
    if s.len() > 0 {
        lemma_sorted_links_len(s.drop_last());
        lemma_insert_by_key_len(sorted_links(s.drop_last()), s.last());
    }
}

/// A place's name and city.
pub struct PlaceNames {
    pub name: String,
    pub city: String,
}

/// What an update changes; `None` leaves a part as it is.
pub struct MomentChange {
    pub title: Option<String>,
    pub content: Option<String>,
    pub happened_at: Option<i128>,
    /// The place name and city, replaced together.
    pub place: Option<PlaceNames>,
    /// An empty name clears the ambient sound.
    pub ambient: Option<String>,
    pub tags: Option<Vec<String>>,
    /// The media to attach instead of the current ones, in the given order.
    pub media_ids: Option<Vec<u128>>,
}

pub open spec fn is_change_refusal(r: Result<MomentChange, AppError>, m: Seq<char>) -> bool {
    r is Err && r->Err_0 is Validation && r->Err_0->Validation_0@ == m
}

pub open spec fn given_place(draft: MomentDraft) -> bool {
    draft.location_name is Some || draft.city is Some || draft.has_coordinates
}

fn link_ids(links: &Vec<MediaLink>) -> (ids: Vec<u128>)
    ensures
        ids@ == links@.map_values(|l: MediaLink| l.id),
{
    let mut ids: Vec<u128> = Vec::new();
    for i in 0..links.len()
        invariant
            ids@ == links@.take(i as int).map_values(|l: MediaLink| l.id),
    {
        ids.push(links[i].id);
        assert(ids@ =~= links@.take(i + 1).map_values(|l: MediaLink| l.id));
    }
    assert(links@.take(links@.len() as int) =~= links@);
    ids
}

/// Checks an update against the moment as it stands, in this order: the
/// title, the text, the time, the place names (when any part of the place
/// came along), the ambient sound, and that the moment keeps a title, text
/// or a media list.
pub fn prepare_update(draft: &MomentDraft, current_title: &str, current_content: &str, now: i128) -> (r:
    Result<MomentChange, AppError>)
    requires
        now + TWENTY_YEARS_NANOS <= i128::MAX,
    ensures
        ({
            let title = match draft.title {
                Some(t) => Some(trim(t@)),
                None => None,
            };
            let content = match draft.content {
                Some(c) => Some(trim(c@)),
                None => None,
            };
            let name = trim(text_or_empty(draft.location_name));
            let city = trim(text_or_empty(draft.city));
            let ambient = ambient_name_of(draft.ambient);
            let next_title = match title {
                Some(t) => t,
                None => current_title@,
            };
            let next_content = match content {
                Some(c) => c,
                None => current_content@,
            };
            if title matches Some(t) && t.len() > MAX_TITLE_CHARS {
                is_change_refusal(r, "主题太长了，最多 120 个字"@)
            } else if content matches Some(c) && c.len() > MAX_CONTENT_CHARS {
                is_change_refusal(r, "文字太长了，最多 20000 个字"@)
            } else if bad_time(draft.happened_at, now) {
                is_change_refusal(r, "时间似乎不太对，请重新选择"@)
            } else if given_place(*draft) && name.len() > MAX_PLACE_CHARS {
                is_change_refusal(r, "地点太长了，最多 60 个字"@)
            } else if given_place(*draft) && city.len() > MAX_CITY_CHARS {
                is_change_refusal(r, "城市名太长了，最多 24 个字"@)
            } else if bad_ambient(ambient) {
                is_change_refusal(r, "没有这种氛围音"@)
            } else if next_title.len() == 0 && next_content.len() == 0 && draft.media is None {
                is_change_refusal(r, "点滴不能完全空着"@)
            } else {
                &&& r is Ok
                &&& match title {
                    Some(t) => r->Ok_0.title is Some && r->Ok_0.title->0@ == t,
                    None => r->Ok_0.title is None,
                }
                &&& match content {
                    Some(c) => r->Ok_0.content is Some && r->Ok_0.content->0@ == c,
                    None => r->Ok_0.content is None,
                }
                &&& r->Ok_0.happened_at == draft.happened_at
                &&& if given_place(*draft) {
                    r->Ok_0.place is Some && r->Ok_0.place->0.name@ == name
                        && r->Ok_0.place->0.city@ == city
                } else {
                    r->Ok_0.place is None
                }
                &&& match ambient {
                    Some(a) => r->Ok_0.ambient is Some && r->Ok_0.ambient->0@ == a,
                    None => r->Ok_0.ambient is None,
                }
                &&& match draft.tags {
                    Some(t) => r->Ok_0.tags is Some && string_views(r->Ok_0.tags->0@) == kept_tags(
                        string_views(t@),
                    ),
                    None => r->Ok_0.tags is None,
                }
                &&& match draft.media {
                    Some(m) => r->Ok_0.media_ids is Some && r->Ok_0.media_ids->0@ == m@.map_values(
                        |l: MediaLink| l.id,
                    ),
                    None => r->Ok_0.media_ids is None,
                }
            }
        }),
{
    let title = match &draft.title {
        Some(t) => Some(normalize_title(t.as_str())?),
        None => None,
    };
    let content = match &draft.content {
        Some(c) => Some(normalize_content(c.as_str())?),
        None => None,
    };
    let happened_at = match draft.happened_at {
        Some(t) => Some(validate_time(Some(t), now)?),
        None => None,
    };
    let place = if draft.location_name.is_some() || draft.city.is_some() || draft.has_coordinates {
        let (name, city) = normalize_place_names(
            option_str(&draft.location_name),
            option_str(&draft.city),
        )?;
        Some(PlaceNames { name, city })
    } else {
        None
    };
    let ambient = normalize_ambient(option_str(&draft.ambient))?;
    let title_empty = match &title {
        Some(t) => chars_of(t.as_str()).len() == 0,
        None => chars_of(current_title).len() == 0,
    };
    let content_empty = match &content {
        Some(c) => chars_of(c.as_str()).len() == 0,
        None => chars_of(current_content).len() == 0,
    };
    if title_empty && content_empty && draft.media.is_none() {
        return Err(AppError::validation("点滴不能完全空着"));
    }
    let tags = match &draft.tags {
        Some(t) => Some(normalize_tags(copy_strings(t))),
        None => None,
    };
    let media_ids = match &draft.media {
        Some(m) => Some(link_ids(m)),
        None => None,
    };
    Ok(MomentChange { title, content, happened_at, place, ambient, tags, media_ids })
}

/// The place a moment shows: its name and city, trimmed; none at all when
/// both are empty and it has no coordinates.
pub fn place_of(location_name: &str, city: &str, has_latitude: bool) -> (r: Option<PlaceNames>)
    ensures
        if trim(location_name@).len() == 0 && trim(city@).len() == 0 && !has_latitude {
            r is None
        } else {
            r is Some && r->0.name@ == trim(location_name@) && r->0.city@ == trim(city@)
        },
{
    let n = trim_chars(&chars_of(location_name));
    let c = trim_chars(&chars_of(city));
    if n.len() == 0 && c.len() == 0 && !has_latitude {
        return None;
    }
    Some(PlaceNames { name: string_of(&n), city: string_of(&c) })
}

// ------------------------------------------------------------------ serving a shared file

/// How a shared file of `total` bytes is sent: in part (206, with a
/// `Content-Range`) for a usable `Range` header, whole (200) otherwise.
pub struct ServePlan {
    pub partial: bool,
    pub start: u64,
    pub end: u64,
    /// How many bytes the body holds.
    pub length: u64,
    /// `bytes start-end/total`, for a partial answer.
    pub content_range: Option<String>,
}

pub fn serve_plan(header: Option<&str>, total: u64) -> (p: ServePlan)
    ensures
        ({
            let range = match header {
                None => None,
                Some(h) => range_of(h@, total as int),
            };
            let (start, end) = match range {
                Some((a, b)) => (a, b),
                None => (0, sat_sub(total as int, 1)),
            };
            &&& p.partial == range is Some
            &&& p.start == start
            &&& p.end == end
            &&& p.length == (if total == 0 {
                0
            } else {
                end - start + 1
            })
            &&& match range {
                Some(_) => p.content_range is Some && p.content_range->0@ == "bytes "@ + ascii_chars(
                    nat_decimal(start as nat),
                ) + "-"@ + ascii_chars(nat_decimal(end as nat)) + "/"@ + ascii_chars(
                    nat_decimal(total as nat),
                ),
                None => p.content_range is None,
            }
        }),
{
    let range = parse_range(header, total);
    match range {
        Some((start, end)) => {
            proof {
                match header {
                    Some(h) => {
                        let r = range_of(h@, total as int);
                        assert(r is Some);
                        let (a, b) = r->0;
                        assert(0 <= a <= b < total);
                    },
                    None => {},
                }
            }
            let mut text = chars_of("bytes ");
            push_chars(&mut text, &ascii_to_chars(&decimal_u64(start)));
            push_chars(&mut text, &chars_of("-"));
            push_chars(&mut text, &ascii_to_chars(&decimal_u64(end)));
            push_chars(&mut text, &chars_of("/"));
            push_chars(&mut text, &ascii_to_chars(&decimal_u64(total)));
            ServePlan {
                partial: true,
                start,
                end,
                length: end - start + 1,
                content_range: Some(string_of(&text)),
            }
        },
        None => {
            let end = if total == 0 {
                0
            } else {
                total - 1
            };
            ServePlan {
                partial: false,
                start: 0,
                end,
                length: total,
                content_range: None,
            }
        },
    }
}

} // verus!
