//! The session cookie: how the browser hands the token back, and the
//! `Set-Cookie` value that hands it out.
use vstd::prelude::*;

use crate::text::{
    ascii_chars, chars_eq, chars_of, copy_chars, find_char, int_decimal, is_first_index,
    lemma_first_index_unique, lemma_split_first, lacks, push_chars, split_chars, split_on, string_of, trim, trim_chars,
    ascii_to_chars, decimal_i64,
};

verus! {

/// Name of the session cookie.
pub const COOKIE_NAME: &'static str = "efflux_session";

pub open spec fn cookie_name() -> Seq<char> {
    COOKIE_NAME@
}

/// The session value one `;`-separated cookie entry carries: the entry
/// splits at its first `=` into a name that trims to the cookie name, and a
/// value, which is given back trimmed.
pub open spec fn session_in_entry(entry: Seq<char>) -> Option<Seq<char>> {
    if exists|i: int| is_first_index(entry, '=', i) {
        let i = choose|i: int| is_first_index(entry, '=', i);
        if trim(entry.take(i)) == cookie_name() {
            Some(trim(entry.skip(i + 1)))
        } else {
            None
        }
    } else {
        None
    }
}

/// The session value of the first entry that carries one.
pub open spec fn first_session(entries: Seq<Seq<char>>) -> Option<Seq<char>>
    decreases entries.len(),
{
    if entries.len() == 0 {
        None
    } else {
        match session_in_entry(entries[0]) {
            Some(v) => Some(v),
            None => first_session(entries.drop_first()),
        }
    }
}

/// Reads the session token out of a `Cookie` header value.
pub fn read_session(cookies: &str) -> (r: Option<String>)
    ensures
        match first_session(split_on(cookies@, ';')) {
            Some(v) => r is Some && r->0@ == v,
            None => r is None,
        },
{
    let chars = chars_of(cookies);
    let entries = split_chars(&chars, ';');
    let name = chars_of(COOKIE_NAME);
    let ghost all = split_on(cookies@, ';');
    assert(all.skip(0) =~= all);
    for k in 0..entries.len()
        invariant
            all == split_on(cookies@, ';'),
            all == entries@.map_values(|p: Vec<char>| p@),
            name@ == cookie_name(),
            first_session(all) == first_session(all.skip(k as int)),
    {
        let entry = &entries[k];
        assert(entry@ == all[k as int]);
        assert(all.skip(k as int).drop_first() =~= all.skip(k + 1));
        assert(all.skip(k as int)[0] == all[k as int]);
        match find_char(entry, '=') {
            Some(i) => {
                proof {
                    assert forall|j: int| is_first_index(entry@, '=', j) implies j == i by {
                        lemma_first_index_unique(entry@, '=', i as int, j);
                    }
                }
                let key = trim_chars(&copy_chars(entry, 0, i));
                assert(entry@.subrange(0, i as int) =~= entry@.take(i as int));
                if chars_eq(&key, &name) {
                    let value = trim_chars(&copy_chars(entry, i + 1, entry.len()));
                    assert(entry@.subrange(i + 1, entry@.len() as int) =~= entry@.skip(i + 1));
                    assert(is_first_index(entry@, '=', i as int));
                    assert(session_in_entry(entry@) == Some(value@));
                    assert(first_session(all.skip(k as int)) == Some(value@));
                    return Some(string_of(&value));
                }
            },
            None => {},
        }
    }
    None
}

/// Law: the cookie handed out for a token hands that token back. For any
/// token without `;` and without surrounding whitespace, reading the session
/// out of its `Set-Cookie` value gives the token.
pub proof fn cookie_reads_back(token: Seq<char>, max_age: int, secure: bool)
    requires
        lacks(token, ';'),
        trim(token) == token,
    ensures
        first_session(split_on(session_cookie(token, max_age, secure), ';')) == Some(token),
{
    reveal_strlit("efflux_session");
    reveal_strlit("; Path=/; HttpOnly; SameSite=Lax; Max-Age=");
    let name = cookie_name();
    assert(name.len() == 14);
    let entry = name + seq!['='] + token;
    let rest = "; Path=/; HttpOnly; SameSite=Lax; Max-Age="@ + ascii_chars(int_decimal(max_age)) + if secure {
        "; Secure"@
    } else {
        Seq::<char>::empty()
    };
    assert(session_cookie(token, max_age, secure) =~= entry + rest);
    assert(rest[0] == ';');
    assert(lacks(entry, ';'));
    lemma_split_first(entry, rest, ';');
    let parts = split_on(entry + rest, ';');
    assert(is_first_index(entry, '=', 14));
    assert forall|j: int| is_first_index(entry, '=', j) implies j == 14 by {
        lemma_first_index_unique(entry, '=', 14, j);
    }
    assert(entry.take(14) =~= name);
    assert(entry.skip(15) =~= token);
    assert(crate::text::trim_start(name) == name);
    assert(crate::text::trim_end(name) == name);
    assert(session_in_entry(entry) == Some(token));
    assert(parts[0] == entry);
}

/// The `Set-Cookie` value for a session token.
pub open spec fn session_cookie(token: Seq<char>, max_age: int, secure: bool) -> Seq<char> {
    cookie_name() + seq!['='] + token + "; Path=/; HttpOnly; SameSite=Lax; Max-Age="@
        + ascii_chars(int_decimal(max_age)) + if secure {
        "; Secure"@
    } else {
        Seq::<char>::empty()
    }
}

/// Builds the `Set-Cookie` value that hands out a session token.
pub fn build_cookie(token: &str, max_age: i64, secure: bool) -> (cookie: String)
    ensures
        cookie@ == session_cookie(token@, max_age as int, secure),
{
    let mut out = chars_of(COOKIE_NAME);
    out.push('=');
    push_chars(&mut out, &chars_of(token));
    push_chars(&mut out, &chars_of("; Path=/; HttpOnly; SameSite=Lax; Max-Age="));
    push_chars(&mut out, &ascii_to_chars(&decimal_i64(max_age)));
    if secure {
        push_chars(&mut out, &chars_of("; Secure"));
    }
    assert(out@ =~= session_cookie(token@, max_age as int, secure));
    string_of(&out)
}

} // verus!
