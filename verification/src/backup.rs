//! Backups: archive names, the chain of a base and its deltas, which files
//! an archive carries, the checks on names and paths read back from an
//! archive, and the order in which archives are listed and replayed.
//!
//! A base archive holds everything; a delta holds the full data snapshot but
//! only the media added since the previous archive. A base is cut for the
//! first backup, when the chain holds `MAX_CHAIN` deltas, or when the base is
//! `MAX_BASE_AGE_DAYS` old. Instants are nanoseconds since the Unix epoch.
use vstd::prelude::*;
use vstd::string::StringSliceAdditionalSpecFns;
use vstd::utf8::encode_utf8;

use crate::error::{message_spec, AppError};
use crate::media::Storage;
use crate::text::{
    ascii_chars, ascii_to_chars, chars_eq, chars_of, contains, contains_text, decimal_u64,
    ends_with, has_prefix, has_suffix, nat_decimal, parse_i64, parse_signed, push_chars, split_chars,
    split_on, starts_with, string_of, text_less, text_lt, trim, trim_chars,
};

verus! {

/// The newest archive format this library writes and reads.
pub const FORMAT_VERSION: u32 = 2;

/// Every archive's file name starts with this.
pub const FILE_PREFIX: &'static str = "efflux-";

/// Where an archive keeps the media files.
pub const FILES_PREFIX: &'static str = "files/";

/// After this many deltas the next archive is a new base.
pub const MAX_CHAIN: usize = 14;

/// A base at least this many days old is replaced by a new base.
pub const MAX_BASE_AGE_DAYS: i64 = 30;

/// The automatic backup interval when none (or a bad one) is stored.
pub const DEFAULT_INTERVAL_DAYS: i64 = 7;

/// The longest automatic backup interval.
pub const MAX_INTERVAL_DAYS: i64 = 90;

/// The largest archive an import accepts: 32 GiB.
pub const MAX_IMPORT_BYTES: u64 = 34_359_738_368;

pub const HOUR_NANOS: i128 = 3_600_000_000_000;

pub const DAY_NANOS: i128 = 86_400_000_000_000;

/// The instants a timestamp can hold: whole seconds fit an `i64`.
pub const INSTANT_LIMIT: i128 = 9_000_000_000_000_000_000_000_000_000;

pub open spec fn is_instant(t: int) -> bool {
    -INSTANT_LIMIT <= t <= INSTANT_LIMIT
}

pub open spec fn file_prefix() -> Seq<char> {
    FILE_PREFIX@
}

// ------------------------------------------------------------------ kinds

/// The two kinds of archive.
#[derive(PartialEq, Eq, Structural, Clone, Copy, Debug)]
pub enum ArchiveKind {
    /// All data and all media.
    Base,
    /// All data, and the media added since the previous archive.
    Delta,
}

pub open spec fn kind_text(k: ArchiveKind) -> Seq<char> {
    match k {
        ArchiveKind::Base => "base"@,
        ArchiveKind::Delta => "delta"@,
    }
}

impl ArchiveKind {
    pub fn as_str(self) -> (s: &'static str)
        ensures
            s@ == kind_text(self),
    {
        match self {
            ArchiveKind::Base => "base",
            ArchiveKind::Delta => "delta",
        }
    }
}

/// The kind an archive without one is read as: a base (archives of the
/// first format were all complete).
pub fn default_kind() -> (s: String)
    ensures
        s@ == "base"@,
{
    string_of(&chars_of(ArchiveKind::Base.as_str()))
}

/// The kind of an archive, read from its file name: `-delta` in it marks a
/// delta, anything else is a base.
pub fn kind_of(name: &str) -> (s: String)
    ensures
        s@ == (if contains_text(name@, "-delta"@) {
            "delta"@
        } else {
            "base"@
        }),
{
    let marker = chars_of("-delta");
    if contains(&chars_of(name), &marker) {
        string_of(&chars_of(ArchiveKind::Delta.as_str()))
    } else {
        string_of(&chars_of(ArchiveKind::Base.as_str()))
    }
}

// ------------------------------------------------------------------ paths

/// `PathBuf::push` on Unix: an absolute `seg` replaces the path; otherwise a
/// `/` goes between them unless the path is empty or already ends in one.
pub open spec fn path_join(base: Seq<char>, seg: Seq<char>) -> Seq<char> {
    if seg.len() > 0 && seg[0] == '/' {
        seg
    } else if base.len() == 0 || base.last() == '/' {
        base + seg
    } else {
        base + seq!['/'] + seg
    }
}

pub fn join_path(base: &str, seg: &str) -> (r: String)
    ensures
        r@ == path_join(base@, seg@),
{
    let b = chars_of(base);
    let s = chars_of(seg);
    if s.len() > 0 && s[0] == '/' {
        return string_of(&s);
    }
    let mut out = b;
    if out.len() > 0 && out[out.len() - 1] != '/' {
        out.push('/');
    }
    push_chars(&mut out, &s);
    assert(out@ =~= path_join(base@, seg@));
    string_of(&out)
}

/// The default backup directory: `backups` under the data directory.
pub fn default_dir(storage: &Storage) -> (dir: String)
    ensures
        dir@ == path_join(storage.root_spec(), "backups"@),
{
    join_path(storage.root(), "backups")
}

/// The backup directory: the stored one, trimmed, unless that is empty or
/// unset; then the default.
pub fn backup_dir_of(stored: Option<&str>, storage: &Storage) -> (dir: String)
    ensures
        dir@ == (match stored {
            Some(s) => if trim(s@).len() > 0 {
                trim(s@)
            } else {
                path_join(storage.root_spec(), "backups"@)
            },
            None => path_join(storage.root_spec(), "backups"@),
        }),
{
    match stored {
        Some(s) => {
            let t = trim_chars(&chars_of(s));
            if t.len() > 0 {
                string_of(&t)
            } else {
                default_dir(storage)
            }
        },
        None => default_dir(storage),
    }
}

/// The directory a settings change asks for: empty means the default; any
/// other value, trimmed, must be an absolute path.
pub fn chosen_dir(raw: &str, fallback: &str) -> (r: Result<String, AppError>)
    ensures
        trim(raw@).len() == 0 ==> r is Ok && r->Ok_0@ == fallback@,
        trim(raw@).len() > 0 && trim(raw@)[0] == '/' ==> r is Ok && r->Ok_0@ == trim(raw@),
        trim(raw@).len() > 0 && trim(raw@)[0] != '/' ==> r is Err && r->Err_0 is Validation
            && r->Err_0->Validation_0@ == "请填一个绝对路径，比如 /mnt/backup/efflux"@,
{
    let t = trim_chars(&chars_of(raw));
    if t.len() == 0 {
        string_of_ok(fallback)
    } else if t[0] == '/' {
        Ok(string_of(&t))
    } else {
        Err(AppError::validation("请填一个绝对路径，比如 /mnt/backup/efflux"))
    }
}

fn string_of_ok(s: &str) -> (r: Result<String, AppError>)
    ensures
        r is Ok,
        r->Ok_0@ == s@,
{
    Ok(string_of(&chars_of(s)))
}

/// The parts of a relative path that `Path::components` gives as normal
/// ones: empty parts (repeated or trailing `/`) and `.` are dropped.
pub open spec fn normal_parts(parts: Seq<Seq<char>>) -> Seq<Seq<char>>
    decreases parts.len(),
{
    if parts.len() == 0 {
        Seq::<Seq<char>>::empty()
    } else {
        let prev = normal_parts(parts.drop_last());
        let p = parts.last();
        if p.len() == 0 || p == seq!['.'] {
            prev
        } else {
            prev.push(p)
        }
    }
}

/// Parts joined with a separator between them.
pub open spec fn join_with(parts: Seq<Seq<char>>, sep: char) -> Seq<char>
    decreases parts.len(),
{
    if parts.len() == 0 {
        Seq::<char>::empty()
    } else if parts.len() == 1 {
        parts[0]
    } else {
        join_with(parts.drop_last(), sep) + seq![sep] + parts.last()
    }
}

/// A path that stays inside the directory it is joined to, rebuilt from its
/// parts: not absolute, no `..`, no leading `.`, and not empty.
pub open spec fn safe_relative_spec(raw: Seq<char>) -> Option<Seq<char>> {
    let parts = split_on(raw, '/');
    if raw.len() > 0 && raw[0] == '/' {
        None
    } else if parts[0] == seq!['.'] {
        None
    } else if exists|i: int| 0 <= i < parts.len() && #[trigger] parts[i] == seq!['.', '.'] {
        None
    } else if normal_parts(parts).len() == 0 {
        None
    } else {
        Some(join_with(normal_parts(parts), '/'))
    }
}

proof fn lemma_join_push(prev: Seq<Seq<char>>, p: Seq<char>, sep: char)
    ensures
        join_with(prev.push(p), sep) == if prev.len() == 0 {
            p
        } else {
            join_with(prev, sep) + seq![sep] + p
        },
{
    assert(prev.push(p).drop_last() =~= prev);
    if prev.len() == 0 {
        assert(prev.push(p)[0] == p);
    }
}

/// Lets through only relative paths such as `a/b/c.jpg`.
pub fn safe_relative(raw: &str) -> (r: Option<String>)
    ensures
        match safe_relative_spec(raw@) {
            Some(p) => r is Some && r->0@ == p,
            None => r is None,
        },
{
    let chars = chars_of(raw);
    if chars.len() > 0 && chars[0] == '/' {
        return None;
    }
    let parts = split_chars(&chars, '/');
    let ghost all = split_on(raw@, '/');
    proof {
        crate::text::lemma_split_len(raw@, '/');
        assert(all == parts@.map_values(|p: Vec<char>| p@));
        assert(all[0] == parts@[0]@);
    }
    if parts[0].len() == 1 && parts[0][0] == '.' {
        assert(all[0] =~= seq!['.']);
        return None;
    }
    let mut out: Vec<char> = Vec::new();
    let mut count: usize = 0;
    assert(all.take(0) =~= Seq::<Seq<char>>::empty());
    for k in 0..parts.len()
        invariant
            all == split_on(raw@, '/'),
            all == parts@.map_values(|p: Vec<char>| p@),
            out@ == join_with(normal_parts(all.take(k as int)), '/'),
            count == normal_parts(all.take(k as int)).len(),
            count <= k,
            forall|j: int| 0 <= j < k ==> all[j] != seq!['.', '.'],
    {
        let part = &parts[k];
        assert(part@ == all[k as int]);
        assert(all.take(k + 1).drop_last() =~= all.take(k as int));
        assert(all.take(k + 1).last() == all[k as int]);
        if part.len() == 2 && part[0] == '.' && part[1] == '.' {
            assert(all[k as int] =~= seq!['.', '.']);
            return None;
        }
        assert(all[k as int] != seq!['.', '.']) by {
            if all[k as int] == seq!['.', '.'] {
                assert(part@[0] == '.' && part@[1] == '.');
            }
        }
        let is_dot = part.len() == 1 && part[0] == '.';
        assert(is_dot <==> all[k as int] == seq!['.']) by {
            if all[k as int] == seq!['.'] {
                assert(part@[0] == '.');
            }
            if is_dot {
                assert(all[k as int] =~= seq!['.']);
            }
        }
        if part.len() > 0 && !is_dot {
            proof {
                lemma_join_push(normal_parts(all.take(k as int)), part@, '/');
            }
            if count > 0 {
                out.push('/');
            }
            push_chars(&mut out, part);
            count = count + 1;
            assert(out@ =~= join_with(normal_parts(all.take(k + 1)), '/'));
        }
    }
    assert(all.take(parts@.len() as int) =~= all);
    if count == 0 {
        None
    } else {
        Some(string_of(&out))
    }
}

/// Whether a file name looks like an archive of this library.
pub open spec fn is_archive_name_spec(name: Seq<char>) -> bool {
    starts_with(name, file_prefix()) && ends_with(name, ".zip"@)
}

pub fn is_archive_name(name: &str) -> (r: bool)
    ensures
        r == is_archive_name_spec(name@),
{
    let chars = chars_of(name);
    has_prefix(&chars, &chars_of(FILE_PREFIX)) && has_suffix(&chars, &chars_of(".zip"))
}

/// The last `/`-separated part of a name (the whole name when it has none).
pub open spec fn last_part(name: Seq<char>) -> Seq<char> {
    split_on(name, '/').last()
}

fn last_part_of(name: &str) -> (r: Vec<char>)
    ensures
        r@ == last_part(name@),
{
    let parts = split_chars(&chars_of(name), '/');
    proof {
        crate::text::lemma_split_len(name@, '/');
        assert(parts@.map_values(|p: Vec<char>| p@).last() == parts@.last()@);
    }
    let n = parts.len();
    copy_vec(&parts[n - 1])
}

fn copy_vec(v: &Vec<char>) -> (r: Vec<char>)
    ensures
        r@ == v@,
{
    let mut out: Vec<char> = Vec::new();
    push_chars(&mut out, v);
    assert(out@ =~= v@);
    out
}

/// Where a named archive lies in the backup directory; only the name's last
/// part counts, and it must look like an archive name.
pub fn resolve(dir: &str, name: &str) -> (r: Result<String, AppError>)
    ensures
        is_archive_name_spec(last_part(name@)) && safe_relative_spec(last_part(name@)) is Some
            ==> r is Ok && r->Ok_0@ == path_join(dir@, last_part(name@)),
        !(is_archive_name_spec(last_part(name@)) && safe_relative_spec(last_part(name@)) is Some)
            ==> r is Err && r->Err_0 is Validation && r->Err_0->Validation_0@
            == "这个文件名不对劲"@,
{
    let last = string_of(&last_part_of(name));
    if !is_archive_name(last.as_str()) {
        return Err(AppError::validation("这个文件名不对劲"));
    }
    if safe_relative(last.as_str()).is_none() {
        return Err(AppError::validation("这个文件名不对劲"));
    }
    Ok(join_path(dir, last.as_str()))
}

// ------------------------------------------------------------------ the chain

/// What is remembered of the previous archive between runs.
pub struct BackupState {
    /// When the previous archive was made.
    pub last_at: Option<i128>,
    /// The file name of the current chain's base.
    pub base_name: Option<String>,
    /// When the current chain's base was made.
    pub base_at: Option<i128>,
    /// How many deltas the current chain holds.
    pub deltas: usize,
}

impl BackupState {
    /// The state before any archive: no chain.
    pub fn empty() -> (s: BackupState)
        ensures
            s.last_at is None,
            s.base_name is None,
            s.base_at is None,
            s.deltas == 0,
    {
        BackupState { last_at: None, base_name: None, base_at: None, deltas: 0 }
    }
}

pub open spec fn state_instants_ok(state: BackupState) -> bool {
    &&& (state.last_at matches Some(t) ==> is_instant(t as int))
    &&& (state.base_at matches Some(t) ==> is_instant(t as int))
}

/// Whether the next archive must be a base: there is no base yet, the chain
/// is full, or the base is at least `MAX_BASE_AGE_DAYS` whole days old.
pub open spec fn base_due(state: BackupState, now: int) -> bool {
    ||| state.base_at is None
    ||| state.deltas >= MAX_CHAIN
    ||| now - state.base_at->0 >= MAX_BASE_AGE_DAYS * DAY_NANOS
}

/// What the next archive is: its kind, and for a delta the instant after
/// which its media were added.
pub struct BackupPlan {
    pub kind: ArchiveKind,
    pub since: Option<i128>,
}

/// Plans the next archive at `now`: a base when one is due, otherwise a
/// delta carrying the media added since the previous archive.
pub fn plan_backup(state: &BackupState, now: i128) -> (plan: BackupPlan)
    requires
        state_instants_ok(*state),
        is_instant(now as int),
    ensures
        base_due(*state, now as int) ==> plan.kind == ArchiveKind::Base && plan.since is None,
        !base_due(*state, now as int) ==> plan.kind == ArchiveKind::Delta && plan.since
            == state.last_at,
{
    let due = match state.base_at {
        None => true,
        Some(at) => state.deltas >= MAX_CHAIN || now - at >= (MAX_BASE_AGE_DAYS as i128) * DAY_NANOS,
    };
    if due {
        BackupPlan { kind: ArchiveKind::Base, since: None }
    } else {
        BackupPlan { kind: ArchiveKind::Delta, since: state.last_at }
    }
}

/// The state after an archive of the planned kind, named `name`, was
/// written at `now`: a base starts a new chain, a delta lengthens it.
pub open spec fn advanced_spec(state: BackupState, kind: ArchiveKind, now: int, name: Seq<char>) -> (
    Option<int>,
    Option<Seq<char>>,
    Option<int>,
    int,
) {
    if kind == ArchiveKind::Base {
        (Some(now), Some(name), Some(now), 0)
    } else {
        (
            Some(now),
            match state.base_name {
                Some(n) => Some(n@),
                None => None,
            },
            match state.base_at {
                Some(t) => Some(t as int),
                None => None,
            },
            state.deltas + 1,
        )
    }
}

pub open spec fn state_view(state: BackupState) -> (Option<int>, Option<Seq<char>>, Option<int>, int) {
    (
        match state.last_at {
            Some(t) => Some(t as int),
            None => None,
        },
        match state.base_name {
            Some(n) => Some(n@),
            None => None,
        },
        match state.base_at {
            Some(t) => Some(t as int),
            None => None,
        },
        state.deltas as int,
    )
}

impl BackupState {
    /// The state once the archive `plan` described has been written at
    /// `now` under `name`.
    pub fn advanced(&self, plan: &BackupPlan, now: i128, name: &str) -> (next: BackupState)
        requires
            state_instants_ok(*self),
            is_instant(now as int),
            plan.kind == ArchiveKind::Delta ==> !base_due(*self, now as int),
        ensures
            state_view(next) == advanced_spec(*self, plan.kind, now as int, name@),
            next.deltas <= MAX_CHAIN,
            state_instants_ok(next),
    {
        if plan.kind == ArchiveKind::Base {
            BackupState {
                last_at: Some(now),
                base_name: Some(string_of(&chars_of(name))),
                base_at: Some(now),
                deltas: 0,
            }
        } else {
            let base_name = match &self.base_name {
                Some(n) => Some(string_of(&chars_of(n.as_str()))),
                None => None,
            };
            BackupState {
                last_at: Some(now),
                base_name,
                base_at: self.base_at,
                deltas: self.deltas + 1,
            }
        }
    }
}

/// After an archive is written at `now`, the chain's base is set and the
/// next archive is a delta, carrying the media added since `now`, exactly
/// while the chain holds fewer than `MAX_CHAIN` deltas and its base is
/// younger than `MAX_BASE_AGE_DAYS`; a chain never holds more than
/// `MAX_CHAIN` deltas; a base starts a new chain and a delta extends the
/// current one.
pub proof fn chain_continues_with_deltas(
    state: BackupState,
    kind: ArchiveKind,
    now: int,
    name: Seq<char>,
    next: BackupState,
    later: int,
)
    requires
        is_instant(now),
        kind == ArchiveKind::Delta ==> !base_due(state, now),
        state_view(next) == advanced_spec(state, kind, now, name),
    ensures
        next.deltas <= MAX_CHAIN,
        next.last_at == Some(now as i128),
        next.base_at is Some,
        !base_due(next, later) <==> (next.deltas < MAX_CHAIN && later - next.base_at->0
            < MAX_BASE_AGE_DAYS * DAY_NANOS),
        kind == ArchiveKind::Base ==> next.base_at == Some(now as i128) && next.deltas == 0
            && next.base_name is Some && next.base_name->0@ == name,
        kind == ArchiveKind::Delta ==> next.deltas == state.deltas + 1 && next.base_at
            == state.base_at,
{
}

// ------------------------------------------------------------------ schedule

/// The stored automatic backup interval in days: the stored text, trimmed,
/// read as an integer in `0..=MAX_INTERVAL_DAYS`; anything else (or nothing)
/// reads as `DEFAULT_INTERVAL_DAYS`. Zero turns automatic backups off.
pub open spec fn interval_of(stored: Option<Seq<char>>) -> int {
    match stored {
        Some(s) => match parse_signed(encode_utf8(trim(s)), i64::MIN as int, i64::MAX as int) {
            Some(d) => if 0 <= d <= MAX_INTERVAL_DAYS {
                d
            } else {
                DEFAULT_INTERVAL_DAYS as int
            },
            None => DEFAULT_INTERVAL_DAYS as int,
        },
        None => DEFAULT_INTERVAL_DAYS as int,
    }
}

pub fn interval_days(stored: Option<&str>) -> (days: i64)
    ensures
        days == interval_of(
            match stored {
                Some(s) => Some(s@),
                None => None,
            },
        ),
        0 <= days <= MAX_INTERVAL_DAYS,
{
    match stored {
        Some(s) => {
            let text = string_of(&trim_chars(&chars_of(s)));
            match parse_i64(text.as_str().as_bytes()) {
                Some(d) => if 0 <= d && d <= MAX_INTERVAL_DAYS {
                    d
                } else {
                    DEFAULT_INTERVAL_DAYS
                },
                None => DEFAULT_INTERVAL_DAYS,
            }
        },
        None => DEFAULT_INTERVAL_DAYS,
    }
}

/// The interval a settings change stores: clamped to `0..=MAX_INTERVAL_DAYS`.
pub fn set_interval_days(days: i64) -> (stored: i64)
    ensures
        stored == crate::config::clamp(days as int, 0, MAX_INTERVAL_DAYS as int),
{
    if days < 0 {
        0
    } else if days > MAX_INTERVAL_DAYS {
        MAX_INTERVAL_DAYS
    } else {
        days
    }
}

proof fn lemma_trim_digits(n: nat)
    ensures
        trim(ascii_chars(nat_decimal(n))) == ascii_chars(nat_decimal(n)),
        crate::text::is_ascii_bytes(nat_decimal(n)),
{
    crate::text::lemma_nat_decimal(n);
    let b = nat_decimal(n);
    let s = ascii_chars(b);
    assert(crate::text::is_digit(b[0]));
    assert(crate::text::is_digit(b[b.len() - 1]));
    assert(!crate::text::is_ws(s[0]));
    assert(!crate::text::is_ws(s.last()));
    assert(crate::text::trim_start(s) == s);
    assert(crate::text::trim_end(s) == s);
    assert forall|i: int| 0 <= i < b.len() implies #[trigger] b[i] < 128 by {
        assert(crate::text::is_digit(b[i]));
    }
}

/// What a settings change stores is what is read back: the decimal text of
/// the stored interval reads as that interval.
pub proof fn stored_interval_reads_back(days: i64)
    ensures
        interval_of(
            Some(
                ascii_chars(
                    crate::text::int_decimal(crate::config::clamp(days as int, 0, MAX_INTERVAL_DAYS as int)),
                ),
            ),
        ) == crate::config::clamp(days as int, 0, MAX_INTERVAL_DAYS as int),
{
    let v = crate::config::clamp(days as int, 0, MAX_INTERVAL_DAYS as int);
    lemma_trim_digits(v as nat);
    crate::text::lemma_ascii_round_trip(nat_decimal(v as nat));
    crate::text::lemma_parse_int_decimal(v, i64::MIN as int, i64::MAX as int);
}

/// Whether an automatic backup is due: automatic backups are on (a non-zero
/// interval) and there has been none yet, or at least `days` × 24 whole
/// hours have passed since the last one.
pub open spec fn backup_due_spec(days: int, last_at: Option<i128>, now: int) -> bool {
    days != 0 && match last_at {
        None => true,
        Some(last) => now - last >= days * 24 * HOUR_NANOS,
    }
}

pub fn backup_due(days: i64, last_at: Option<i128>, now: i128) -> (due: bool)
    requires
        0 <= days <= MAX_INTERVAL_DAYS,
        is_instant(now as int),
        last_at matches Some(t) ==> is_instant(t as int),
    ensures
        due == backup_due_spec(days as int, last_at, now as int),
{
    if days == 0 {
        return false;
    }
    match last_at {
        None => true,
        Some(last) => now - last >= (days as i128) * 24 * HOUR_NANOS,
    }
}

// ------------------------------------------------------------------ names

/// The UTC date and time of a Unix timestamp in whole seconds, as
/// `chrono` formats it with `"%Y%m%d-%H%M%S"`; `None` outside the range of
/// `DateTime<Utc>`.
pub uninterp spec fn utc_stamp(secs: int) -> Option<Seq<char>>;

/// A character of a `chrono` date stamp: a digit, or the sign of a year
/// outside `0..10000`, or the `-` between date and time.
pub open spec fn is_stamp_char(c: char) -> bool {
    ('0' <= c <= '9') || c == '-' || c == '+'
}

/// Calls `chrono::DateTime::<Utc>::from_timestamp_secs` and formats the
/// result with `"%Y%m%d-%H%M%S"`. Claimed: the text is `utc_stamp(secs)`,
/// and there is none exactly when `chrono` has no such instant; the text
/// holds only digits, `-` and `+` (`%Y` writes four zero-padded digits, with
/// a sign for years outside `0..10000`; the other fields two digits each).
#[verifier::external_body]
fn format_utc_stamp(secs: i64) -> (r: Option<String>)
    ensures
        match r {
            Some(t) => utc_stamp(secs as int) == Some(t@) && forall|i: int|
                0 <= i < t@.len() ==> is_stamp_char(#[trigger] t@[i]),
            None => utc_stamp(secs as int) is None,
        },
{
    match chrono::DateTime::<chrono::Utc>::from_timestamp_secs(secs) {
        Some(t) => Some(t.format("%Y%m%d-%H%M%S").to_string()),
        None => None,
    }
}

/// An archive's file name: the prefix, the UTC stamp of its creation, its
/// kind, `.zip`.
pub open spec fn archive_file_name(stamp: Seq<char>, kind: ArchiveKind) -> Seq<char> {
    file_prefix() + stamp + seq!['-'] + kind_text(kind) + ".zip"@
}

pub fn archive_name(stamp: &str, kind: ArchiveKind) -> (name: String)
    ensures
        name@ == archive_file_name(stamp@, kind),
{
    let mut out = chars_of(FILE_PREFIX);
    push_chars(&mut out, &chars_of(stamp));
    out.push('-');
    push_chars(&mut out, &chars_of(kind.as_str()));
    push_chars(&mut out, &chars_of(".zip"));
    assert(out@ =~= archive_file_name(stamp@, kind));
    string_of(&out)
}

/// The whole seconds of an instant (rounded down).
pub open spec fn whole_seconds(now: int) -> int {
    now / 1_000_000_000
}

fn seconds_of(now: i128) -> (secs: i64)
    requires
        is_instant(now as int),
    ensures
        secs == whole_seconds(now as int),
{
    if now >= 0 {
        let q = (now as u128) / 1_000_000_000u128;
        assert(q <= 9_000_000_000_000_000_000u128);
        q as i64
    } else {
        let m = (0i128 - now) as u128;
        let q = (m + 999_999_999u128) / 1_000_000_000u128;
        assert(q <= 9_000_000_000_000_000_000u128);
        proof {
            let n = now as int;
            let qi = q as int;
            assert(qi * 1_000_000_000 <= m + 999_999_999 < qi * 1_000_000_000 + 1_000_000_000);
            assert(-qi * 1_000_000_000 <= n < -qi * 1_000_000_000 + 1_000_000_000);
            vstd::arithmetic::div_mod::lemma_fundamental_div_mod_converse(
                n,
                1_000_000_000,
                -qi,
                n + qi * 1_000_000_000,
            );
        }
        (0i128 - (q as i128)) as i64
    }
}

/// The file name of an archive of `kind` made at `now`; `None` where
/// `chrono` has no date for the instant.
pub fn archive_name_at(now: i128, kind: ArchiveKind) -> (name: Option<String>)
    requires
        is_instant(now as int),
    ensures
        match utc_stamp(whole_seconds(now as int)) {
            Some(stamp) => name is Some && name->0@ == archive_file_name(stamp, kind),
            None => name is None,
        },
        match name {
            Some(n) => (contains_text(n@, "-delta"@) <==> kind == ArchiveKind::Delta)
                && is_archive_name_spec(n@),
            None => true,
        },
{
    match format_utc_stamp(seconds_of(now)) {
        Some(stamp) => {
            proof {
                assert(crate::text::lacks(stamp@, 'd')) by {
                    assert forall|i: int| 0 <= i < stamp@.len() implies stamp@[i] != 'd' by {
                        assert(is_stamp_char(stamp@[i]));
                    }
                }
                archive_name_tells_kind(stamp@, kind);
            }
            Some(archive_name(stamp.as_str(), kind))
        },
        None => None,
    }
}

proof fn lemma_no_d_no_delta(s: Seq<char>)
    requires
        crate::text::lacks(s, 'd'),
    ensures
        !contains_text(s, "-delta"@),
{
    reveal_strlit("-delta");
    if contains_text(s, "-delta"@) {
        let i = choose|i: int|
            0 <= i <= s.len() - "-delta"@.len() && #[trigger] s.subrange(i, i + "-delta"@.len())
                == "-delta"@;
        assert(s.subrange(i, i + 6)[1] == s[i + 1]);
        assert("-delta"@[1] == 'd');
    }
}

/// An archive's name tells its kind back, and looks like an archive name,
/// for any stamp without a `d` (a `chrono` stamp is digits and `-`).
pub proof fn archive_name_tells_kind(stamp: Seq<char>, kind: ArchiveKind)
    requires
        crate::text::lacks(stamp, 'd'),
    ensures
        contains_text(archive_file_name(stamp, kind), "-delta"@) <==> kind == ArchiveKind::Delta,
        is_archive_name_spec(archive_file_name(stamp, kind)),
{
    reveal_strlit("-delta");
    reveal_strlit(".zip");
    reveal_strlit("efflux-");
    reveal_strlit("base");
    reveal_strlit("delta");
    let name = archive_file_name(stamp, kind);
    assert(name.take(file_prefix().len() as int) =~= file_prefix());
    assert(name.skip(name.len() - 4) =~= ".zip"@);
    if kind == ArchiveKind::Delta {
        let i: int = (file_prefix().len() + stamp.len()) as int;
        assert(name.subrange(i, i + 6) =~= "-delta"@);
        assert(name.subrange(i, i + "-delta"@.len() as int) =~= "-delta"@);
    } else {
        assert forall|j: int| 0 <= j < name.len() implies name[j] != 'd' by {
            if j < file_prefix().len() {
                assert(name[j] == file_prefix()[j]);
            } else if j < file_prefix().len() + stamp.len() {
                assert(name[j] == stamp[j - file_prefix().len()]);
            }
        }
        lemma_no_d_no_delta(name);
    }
}

// ------------------------------------------------------------------ what an archive carries

/// What the packing needs to know of one media row.
pub struct PackEntry {
    pub file_path: String,
    pub thumb_path: Option<String>,
    /// When the row was created; old rows may have no time.
    pub created_at: Option<i128>,
}

/// Whether a media row counts as added after `since`: every row counts for
/// a base (no `since`); for a delta a row counts unless it is known to be
/// older than or as old as `since`.
pub open spec fn added_since(created_at: Option<i128>, since: Option<i128>) -> bool {
    match since {
        None => true,
        Some(s) => match created_at {
            None => true,
            Some(at) => at > s,
        },
    }
}

/// Whether the file `p` belongs in an archive: it is the file or the
/// thumbnail of a media row added after `since`.
pub open spec fn packs(media: Seq<PackEntry>, since: Option<i128>, p: Seq<char>) -> bool {
    exists|i: int|
        #![trigger media[i]]
        0 <= i < media.len() && added_since(media[i].created_at, since) && (media[i].file_path@ == p
            || (media[i].thumb_path matches Some(t) && t@ == p))
}

/// Strictly ascending in the order of `str`: sorted and without repeats.
pub open spec fn strictly_sorted(v: Seq<Seq<char>>) -> bool {
    forall|i: int, j: int| 0 <= i < j < v.len() ==> text_lt(#[trigger] v[i], #[trigger] v[j])
}

fn string_chars(s: &String) -> (r: Vec<char>)
    ensures
        r@ == s@,
{
    chars_of(s.as_str())
}

/// Adds `x` to a strictly ascending list unless it is there already.
fn insert_sorted(v: &mut Vec<String>, x: String)
    requires
        strictly_sorted(crate::text::string_views(old(v)@)),
    ensures
        strictly_sorted(crate::text::string_views(final(v)@)),
        forall|p: Seq<char>|
            #[trigger] crate::text::string_views(final(v)@).contains(p) <==> (
            crate::text::string_views(old(v)@).contains(p) || p == x@),
{
    let ghost old_views = crate::text::string_views(v@);
    let xc = string_chars(&x);
    let mut p: usize = 0;
    while p < v.len() && text_less(&string_chars(&v[p]), &xc)
        invariant
            p <= v@.len(),
            old_views == crate::text::string_views(v@),
            xc@ == x@,
            forall|q: int| 0 <= q < p ==> text_lt(#[trigger] old_views[q], x@),
        decreases v@.len() - p,
    {
        p = p + 1;
    }
    if p < v.len() && chars_eq(&string_chars(&v[p]), &xc) {
        assert(old_views[p as int] == x@);
        assert forall|q: Seq<char>|
            #[trigger] crate::text::string_views(v@).contains(q) <==> (old_views.contains(q) || q
                == x@) by {
            if q == x@ {
                assert(old_views[p as int] == q);
            }
        }
        return ;
    }
    assert(p < old_views.len() ==> old_views[p as int] != x@ && !text_lt(old_views[p as int], x@));
    proof {
        if p < old_views.len() {
            crate::text::lemma_text_lt_total(old_views[p as int], x@);
        }
    }
    v.insert(p, x);
    let ghost new_views = crate::text::string_views(v@);
    assert(new_views =~= old_views.insert(p as int, xc@));
    assert forall|i: int, j: int| 0 <= i < j < new_views.len() implies text_lt(
        #[trigger] new_views[i],
        #[trigger] new_views[j],
    ) by {
        if j < p {
        } else if j == p {
            assert(new_views[j] == x@);
        } else if i == p {
            assert(new_views[j] == old_views[j - 1]);
            if j - 1 > p {
                assert(text_lt(old_views[p as int], old_views[j - 1]));
                crate::text::lemma_text_lt_transitive(x@, old_views[p as int], old_views[j - 1]);
            }
        } else if i < p {
            assert(new_views[j] == old_views[j - 1]);
        } else {
            assert(new_views[i] == old_views[i - 1]);
            assert(new_views[j] == old_views[j - 1]);
        }
    }
    assert forall|q: Seq<char>|
        #[trigger] new_views.contains(q) <==> (old_views.contains(q) || q == x@) by {
        if new_views.contains(q) {
            let k = choose|k: int| 0 <= k < new_views.len() && new_views[k] == q;
            if k < p {
                assert(old_views[k] == q);
            } else if k > p {
                assert(old_views[k - 1] == q);
            }
        }
        if old_views.contains(q) {
            let k = choose|k: int| 0 <= k < old_views.len() && old_views[k] == q;
            if k < p {
                assert(new_views[k] == q);
            } else {
                assert(new_views[k + 1] == q);
            }
        }
        if q == x@ {
            assert(new_views[p as int] == q);
        }
    }
}

/// The files an archive carries, relative to the data directory: the file
/// and the thumbnail of every media row added after `since` (all rows for a
/// base), sorted, each once.
pub fn files_to_pack(media: &[PackEntry], since: Option<i128>) -> (files: Vec<String>)
    ensures
        strictly_sorted(crate::text::string_views(files@)),
        forall|p: Seq<char>|
            #[trigger] crate::text::string_views(files@).contains(p) <==> packs(media@, since, p),
{
    let mut files: Vec<String> = Vec::new();
    for k in 0..media.len()
        invariant
            strictly_sorted(crate::text::string_views(files@)),
            forall|p: Seq<char>|
                #[trigger] crate::text::string_views(files@).contains(p) <==> packs(
                    media@.take(k as int),
                    since,
                    p,
                ),
    {
        let item = &media[k];
        let ghost before = crate::text::string_views(files@);
        let fresh = match since {
            None => true,
            Some(s) => match item.created_at {
                None => true,
                Some(at) => at > s,
            },
        };
        if fresh {
            insert_sorted(&mut files, string_of(&string_chars(&item.file_path)));
            match &item.thumb_path {
                Some(t) => insert_sorted(&mut files, string_of(&string_chars(t))),
                None => {},
            }
        }
        assert forall|p: Seq<char>|
            #[trigger] crate::text::string_views(files@).contains(p) <==> packs(
                media@.take(k + 1),
                since,
                p,
            ) by {
            let m1 = media@.take(k + 1);
            let m0 = media@.take(k as int);
            assert(m1[k as int] == media@[k as int]);
            if packs(m1, since, p) {
                let i = choose|i: int|
                    #![trigger m1[i]]
                    0 <= i < m1.len() && added_since(m1[i].created_at, since) && (m1[i].file_path@
                        == p || (m1[i].thumb_path matches Some(t) && t@ == p));
                if i < k {
                    assert(m0[i] == m1[i]);
                    assert(packs(m0, since, p));
                }
            }
            if packs(m0, since, p) {
                let i = choose|i: int|
                    #![trigger m0[i]]
                    0 <= i < m0.len() && added_since(m0[i].created_at, since) && (m0[i].file_path@
                        == p || (m0[i].thumb_path matches Some(t) && t@ == p));
                assert(m1[i] == m0[i]);
            }
        }
    }
    assert(media@.take(media@.len() as int) =~= media@);
    files
}

// ------------------------------------------------------------------ order

/// Whether entry `a` comes before entry `b` when entries are ordered by
/// name (newest first, the stamp being in the name, or oldest first), the
/// earlier entry first among equal names.
pub open spec fn name_before(names: Seq<Seq<char>>, newest_first: bool, a: int, b: int) -> bool {
    if names[a] == names[b] {
        a < b
    } else if newest_first {
        text_lt(names[b], names[a])
    } else {
        text_lt(names[a], names[b])
    }
}

/// `order` lists every index below `n` once.
pub open spec fn is_permutation_of(order: Seq<usize>, n: int) -> bool {
    &&& order.len() == n
    &&& forall|i: int| 0 <= i < n ==> #[trigger] order[i] < n
    &&& forall|i: int, j: int| 0 <= i < j < n ==> #[trigger] order[i] != #[trigger] order[j]
}

proof fn lemma_before_total(names: Seq<Seq<char>>, newest_first: bool, a: int, b: int)
    requires
        a != b,
    ensures
        name_before(names, newest_first, a, b) || name_before(names, newest_first, b, a),
{
    crate::text::lemma_text_lt_total(names[a], names[b]);
}

proof fn lemma_before_transitive(names: Seq<Seq<char>>, newest_first: bool, a: int, b: int, c: int)
    requires
        name_before(names, newest_first, a, b),
        name_before(names, newest_first, b, c),
    ensures
        name_before(names, newest_first, a, c),
{
    crate::text::lemma_text_lt_irreflexive(names[a]);
    crate::text::lemma_text_lt_irreflexive(names[b]);
    crate::text::lemma_text_lt_irreflexive(names[c]);
    if names[a] != names[b] && names[b] != names[c] {
        if newest_first {
            crate::text::lemma_text_lt_transitive(names[c], names[b], names[a]);
        } else {
            crate::text::lemma_text_lt_transitive(names[a], names[b], names[c]);
        }
    }
}

/// Whether a name goes before another of a different entry.
fn goes_before(newest_first: bool, key: &[char], other: &[char]) -> (r: bool)
    ensures
        r == if newest_first {
            text_lt(other@, key@)
        } else {
            text_lt(key@, other@)
        },
{
    if newest_first {
        text_less(other, key)
    } else {
        text_less(key, other)
    }
}

/// The order in which to take entries by name: a stable sort, newest
/// first (the listing) or oldest first (the replay of uploaded archives,
/// each delta on top of what came before).
pub fn order_by_name(names: &[String], newest_first: bool) -> (order: Vec<usize>)
    ensures
        is_permutation_of(order@, names@.len() as int),
        forall|i: int, j: int|
            0 <= i < j < order@.len() ==> name_before(
                crate::text::string_views(names@),
                newest_first,
                #[trigger] order@[i] as int,
                #[trigger] order@[j] as int,
            ),
{
    let ghost keys = crate::text::string_views(names@);
    let mut order: Vec<usize> = Vec::new();
    for k in 0..names.len()
        invariant
            keys == crate::text::string_views(names@),
            is_permutation_of(order@, k as int),
            forall|i: int, j: int|
                0 <= i < j < order@.len() ==> name_before(
                    keys,
                    newest_first,
                    #[trigger] order@[i] as int,
                    #[trigger] order@[j] as int,
                ),
    {
        let key = string_chars(&names[k]);
        assert(key@ == keys[k as int]);
        let mut p: usize = 0;
        while p < order.len() && !goes_before(newest_first, &key, &string_chars(&names[order[p]]))
            invariant
                keys == crate::text::string_views(names@),
                key@ == keys[k as int],
                k < names@.len(),
                is_permutation_of(order@, k as int),
                p <= order@.len(),
                forall|q: int|
                    0 <= q < p ==> !name_before(keys, newest_first, k as int, #[trigger] order@[q] as int),
            decreases order@.len() - p,
        {
            let ghost b = order@[p as int] as int;
            assert(b < k);
            p = p + 1;
        }
        let ghost old_order = order@;
        proof {
            if p < old_order.len() {
                let b = old_order[p as int] as int;
                assert(b < k);
                crate::text::lemma_text_lt_irreflexive(keys[k as int]);
                assert(name_before(keys, newest_first, k as int, b));
            }
        }
        order.insert(p, k);
        assert(order@ =~= old_order.insert(p as int, k));
        assert forall|i: int| 0 <= i < k + 1 implies #[trigger] order@[i] < k + 1 by {
            if i < p {
                assert(order@[i] == old_order[i]);
            } else if i > p {
                assert(order@[i] == old_order[i - 1]);
            }
        }
        assert forall|i: int, j: int| 0 <= i < j < k + 1 implies #[trigger] order@[i]
            != #[trigger] order@[j] by {
            if i < p && j < p {
            } else if i < p && j == p {
            } else if i < p {
                assert(order@[j] == old_order[j - 1]);
            } else if i == p {
                assert(order@[j] == old_order[j - 1]);
            } else {
                assert(order@[i] == old_order[i - 1]);
                assert(order@[j] == old_order[j - 1]);
            }
        }
        assert forall|i: int, j: int| 0 <= i < j < order@.len() implies name_before(
            keys,
            newest_first,
            #[trigger] order@[i] as int,
            #[trigger] order@[j] as int,
        ) by {
            if j < p {
                assert(order@[i] == old_order[i]);
                assert(order@[j] == old_order[j]);
            } else if j == p {
                assert(order@[i] == old_order[i]);
                let a = old_order[i] as int;
                assert(!name_before(keys, newest_first, k as int, a));
                lemma_before_total(keys, newest_first, k as int, a);
            } else if i == p {
                let c = old_order[j - 1] as int;
                assert(order@[j] == c);
                let b = old_order[p as int] as int;
                if j - 1 > p {
                    assert(name_before(keys, newest_first, b, c));
                    lemma_before_transitive(keys, newest_first, k as int, b, c);
                }
            } else if i < p {
                assert(order@[i] == old_order[i]);
                assert(order@[j] == old_order[j - 1]);
            } else {
                assert(order@[i] == old_order[i - 1]);
                assert(order@[j] == old_order[j - 1]);
            }
        }
    }
    order
}

// ------------------------------------------------------------------ clean paths

/// A clean path part: not empty, not `.` or `..`, without `/`.
pub open spec fn clean_part(p: Seq<char>) -> bool {
    &&& p.len() > 0
    &&& p != seq!['.']
    &&& p != seq!['.', '.']
    &&& crate::text::lacks(p, '/')
}

proof fn lemma_split_parts_lack(s: Seq<char>, sep: char)
    ensures
        forall|i: int|
            0 <= i < split_on(s, sep).len() ==> crate::text::lacks(#[trigger] split_on(s, sep)[i], sep),
    decreases s.len(),
{
    if s.len() > 0 {
        lemma_split_parts_lack(s.drop_last(), sep);
        crate::text::lemma_split_len(s.drop_last(), sep);
        let prev = split_on(s.drop_last(), sep);
        if s.last() != sep {
            let l = prev.last().push(s.last());
            assert forall|k: int| 0 <= k < l.len() implies l[k] != sep by {
                if k < prev.last().len() {
                    assert(l[k] == prev.last()[k]);
                    assert(crate::text::lacks(prev[prev.len() - 1], sep));
                }
            }
        }
    }
}

proof fn lemma_normal_parts_clean(parts: Seq<Seq<char>>)
    requires
        forall|i: int| 0 <= i < parts.len() ==> crate::text::lacks(#[trigger] parts[i], '/'),
        forall|i: int| 0 <= i < parts.len() ==> #[trigger] parts[i] != seq!['.', '.'],
    ensures
        forall|i: int|
            0 <= i < normal_parts(parts).len() ==> clean_part(#[trigger] normal_parts(parts)[i]),
    decreases parts.len(),
{
    if parts.len() > 0 {
        let d = parts.drop_last();
        assert forall|i: int| 0 <= i < d.len() implies crate::text::lacks(#[trigger] d[i], '/') by {
            assert(d[i] == parts[i]);
        }
        assert forall|i: int| 0 <= i < d.len() implies #[trigger] d[i] != seq!['.', '.'] by {
            assert(d[i] == parts[i]);
        }
        lemma_normal_parts_clean(d);
        let last = parts.last();
        assert(last == parts[parts.len() - 1]);
        let prev = normal_parts(d);
        let all = normal_parts(parts);
        assert forall|i: int| 0 <= i < all.len() implies clean_part(#[trigger] all[i]) by {
            if i < prev.len() {
                assert(all[i] == prev[i]);
            } else {
                assert(all[i] == last);
            }
        }
    }
}

proof fn lemma_normal_parts_of_clean(ps: Seq<Seq<char>>)
    requires
        forall|i: int| 0 <= i < ps.len() ==> clean_part(#[trigger] ps[i]),
    ensures
        normal_parts(ps) == ps,
    decreases ps.len(),
{
    if ps.len() > 0 {
        let d = ps.drop_last();
        assert forall|i: int| 0 <= i < d.len() implies clean_part(#[trigger] d[i]) by {
            assert(d[i] == ps[i]);
        }
        lemma_normal_parts_of_clean(d);
        assert(clean_part(ps[ps.len() - 1]));
        assert(d.push(ps.last()) =~= ps);
    }
}

proof fn lemma_split_join(ps: Seq<Seq<char>>)
    requires
        ps.len() > 0,
        forall|i: int| 0 <= i < ps.len() ==> crate::text::lacks(#[trigger] ps[i], '/'),
    ensures
        split_on(join_with(ps, '/'), '/') == ps,
    decreases ps.len(),
{
    if ps.len() == 1 {
        crate::text::lemma_split_single(ps[0], '/');
        assert(seq![ps[0]] =~= ps);
    } else {
        let d = ps.drop_last();
        assert forall|i: int| 0 <= i < d.len() implies crate::text::lacks(#[trigger] d[i], '/') by {
            assert(d[i] == ps[i]);
        }
        lemma_split_join(d);
        assert(crate::text::lacks(ps[ps.len() - 1], '/'));
        crate::text::lemma_split_field(join_with(d, '/'), ps.last(), '/');
        assert(d.push(ps.last()) =~= ps);
    }
}

proof fn lemma_join_first(ps: Seq<Seq<char>>)
    requires
        ps.len() > 0,
        ps[0].len() > 0,
    ensures
        join_with(ps, '/').len() > 0,
        join_with(ps, '/')[0] == ps[0][0],
    decreases ps.len(),
{
    if ps.len() > 1 {
        let d = ps.drop_last();
        assert(d[0] == ps[0]);
        lemma_join_first(d);
    }
}

/// What the path check lets through is a clean relative path: it does not
/// start with `/`, every part is clean, and checking it again gives it back
/// unchanged.
pub proof fn safe_relative_is_clean(raw: Seq<char>)
    requires
        safe_relative_spec(raw) is Some,
    ensures
        ({
            let p = safe_relative_spec(raw)->0;
            &&& p.len() > 0
            &&& p[0] != '/'
            &&& forall|i: int|
                0 <= i < split_on(p, '/').len() ==> clean_part(#[trigger] split_on(p, '/')[i])
            &&& safe_relative_spec(p) == Some(p)
        }),
{
    let parts = split_on(raw, '/');
    lemma_split_parts_lack(raw, '/');
    assert(forall|i: int| 0 <= i < parts.len() ==> #[trigger] parts[i] != seq!['.', '.']);
    lemma_normal_parts_clean(parts);
    let ps = normal_parts(parts);
    let p = join_with(ps, '/');
    assert(clean_part(ps[0]));
    lemma_join_first(ps);
    lemma_split_join(ps);
    lemma_normal_parts_of_clean(ps);
    assert(split_on(p, '/')[0] == ps[0]);
    assert(!(exists|i: int| 0 <= i < ps.len() && #[trigger] ps[i] == seq!['.', '.'])) by {
        if exists|i: int| 0 <= i < ps.len() && #[trigger] ps[i] == seq!['.', '.'] {
            let i = choose|i: int| 0 <= i < ps.len() && #[trigger] ps[i] == seq!['.', '.'];
            assert(clean_part(ps[i]));
        }
    }
}

/// The components `Path` compares: whether the path is absolute, whether it
/// starts with a `.` component (relative paths only), and its other parts
/// with empty ones and `.` dropped.
pub open spec fn path_components(p: Seq<char>) -> (bool, bool, Seq<Seq<char>>) {
    let absolute = p.len() > 0 && p[0] == '/';
    (absolute, !absolute && split_on(p, '/')[0] == seq!['.'], normal_parts(split_on(p, '/')))
}

/// The normal parts of a path, joined with `/`.
fn normalized(raw: &str) -> (r: (bool, bool, Vec<char>))
    ensures
        r.0 == path_components(raw@).0,
        r.1 == path_components(raw@).1,
        r.2@ == join_with(path_components(raw@).2, '/'),
{
    let chars = chars_of(raw);
    let absolute = chars.len() > 0 && chars[0] == '/';
    let parts = split_chars(&chars, '/');
    let ghost all = split_on(raw@, '/');
    proof {
        crate::text::lemma_split_len(raw@, '/');
        assert(all == parts@.map_values(|p: Vec<char>| p@));
        assert(all[0] == parts@[0]@);
    }
    let lead_dot = parts[0].len() == 1 && parts[0][0] == '.';
    assert(lead_dot <==> all[0] == seq!['.']) by {
        if all[0] == seq!['.'] {
            assert(parts@[0]@[0] == '.');
        }
        if lead_dot {
            assert(all[0] =~= seq!['.']);
        }
    }
    let mut out: Vec<char> = Vec::new();
    let mut count: usize = 0;
    assert(all.take(0) =~= Seq::<Seq<char>>::empty());
    for k in 0..parts.len()
        invariant
            all == split_on(raw@, '/'),
            all == parts@.map_values(|p: Vec<char>| p@),
            out@ == join_with(normal_parts(all.take(k as int)), '/'),
            count == normal_parts(all.take(k as int)).len(),
            count <= k,
    {
        let part = &parts[k];
        assert(part@ == all[k as int]);
        assert(all.take(k + 1).drop_last() =~= all.take(k as int));
        assert(all.take(k + 1).last() == all[k as int]);
        let is_dot = part.len() == 1 && part[0] == '.';
        assert(is_dot <==> all[k as int] == seq!['.']) by {
            if all[k as int] == seq!['.'] {
                assert(part@[0] == '.');
            }
            if is_dot {
                assert(all[k as int] =~= seq!['.']);
            }
        }
        if part.len() > 0 && !is_dot {
            proof {
                lemma_join_push(normal_parts(all.take(k as int)), part@, '/');
            }
            if count > 0 {
                out.push('/');
            }
            push_chars(&mut out, part);
            count = count + 1;
            assert(out@ =~= join_with(normal_parts(all.take(k + 1)), '/'));
        }
    }
    assert(all.take(parts@.len() as int) =~= all);
    (absolute, !absolute && lead_dot, out)
}

proof fn lemma_normal_parts_lack(parts: Seq<Seq<char>>)
    requires
        forall|i: int| 0 <= i < parts.len() ==> crate::text::lacks(#[trigger] parts[i], '/'),
    ensures
        forall|i: int|
            0 <= i < normal_parts(parts).len() ==> crate::text::lacks(#[trigger] normal_parts(parts)[i], '/')
                && normal_parts(parts)[i].len() > 0,
    decreases parts.len(),
{
    if parts.len() > 0 {
        let d = parts.drop_last();
        assert forall|i: int| 0 <= i < d.len() implies crate::text::lacks(#[trigger] d[i], '/') by {
            assert(d[i] == parts[i]);
        }
        lemma_normal_parts_lack(d);
        let last = parts.last();
        assert(last == parts[parts.len() - 1]);
        let prev = normal_parts(d);
        let all = normal_parts(parts);
        assert forall|i: int| 0 <= i < all.len() implies crate::text::lacks(#[trigger] all[i], '/')
            && all[i].len() > 0 by {
            if i < prev.len() {
                assert(all[i] == prev[i]);
            } else {
                assert(all[i] == last);
            }
        }
    }
}

proof fn lemma_join_injective(a: Seq<Seq<char>>, b: Seq<Seq<char>>)
    requires
        forall|i: int| 0 <= i < a.len() ==> crate::text::lacks(#[trigger] a[i], '/') && a[i].len() > 0,
        forall|i: int| 0 <= i < b.len() ==> crate::text::lacks(#[trigger] b[i], '/') && b[i].len() > 0,
        join_with(a, '/') == join_with(b, '/'),
    ensures
        a == b,
{
    if a.len() == 0 && b.len() == 0 {
        assert(a =~= b);
    } else if a.len() == 0 {
        assert(b[0].len() > 0);
        lemma_join_first(b);
    } else if b.len() == 0 {
        assert(a[0].len() > 0);
        lemma_join_first(a);
    } else {
        lemma_split_join(a);
        lemma_split_join(b);
    }
}

/// Whether two paths are the same path, as `Path`'s `==` compares them
/// (component by component).
pub fn same_path(a: &str, b: &str) -> (r: bool)
    ensures
        r == (path_components(a@) == path_components(b@)),
{
    let (a_abs, a_dot, a_parts) = normalized(a);
    let (b_abs, b_dot, b_parts) = normalized(b);
    let eq = chars_eq(&a_parts, &b_parts);
    proof {
        lemma_split_parts_lack(a@, '/');
        lemma_split_parts_lack(b@, '/');
        lemma_normal_parts_lack(split_on(a@, '/'));
        lemma_normal_parts_lack(split_on(b@, '/'));
        if eq {
            lemma_join_injective(path_components(a@).2, path_components(b@).2);
        }
    }
    a_abs == b_abs && a_dot == b_dot && eq
}

/// Whether an archive in the backup directory belongs to a replaced chain:
/// every archive but the new base.
pub fn superseded(name: &str, keep: &str) -> (r: bool)
    ensures
        r == (is_archive_name_spec(name@) && name@ != keep@),
{
    is_archive_name(name) && !chars_eq(&chars_of(name), &chars_of(keep))
}

/// A change of backup directory goes ahead only when every archive moved.
pub fn check_migration(failed: u64) -> (r: Result<(), AppError>)
    ensures
        failed == 0 ==> r is Ok,
        failed > 0 ==> r is Err && r->Err_0 is Validation && r->Err_0->Validation_0@ == "有 "@
            + ascii_chars(nat_decimal(failed as nat)) + " 个包没能搬过去，目录就先不改了。检查一下权限或磁盘空间"@,
{
    if failed == 0 {
        return Ok(());
    }
    let mut m = chars_of("有 ");
    push_chars(&mut m, &ascii_to_chars(&decimal_u64(failed)));
    push_chars(&mut m, &chars_of(" 个包没能搬过去，目录就先不改了。检查一下权限或磁盘空间"));
    Err(AppError::Validation(string_of(&m)))
}

// ------------------------------------------------------------------ reading an archive back

/// Refuses archives written by a newer format.
pub fn check_format_version(version: u32) -> (r: Result<(), AppError>)
    ensures
        version <= FORMAT_VERSION ==> r is Ok,
        version > FORMAT_VERSION ==> r is Err && r->Err_0 is Validation && r->Err_0->Validation_0@
            == "这份备份是更新版本（v"@ + ascii_chars(nat_decimal(version as nat)) + "）导出的，当前只认到 v"@
            + ascii_chars(nat_decimal(FORMAT_VERSION as nat)),
{
    if version <= FORMAT_VERSION {
        return Ok(());
    }
    let mut m = chars_of("这份备份是更新版本（v");
    push_chars(&mut m, &ascii_to_chars(&decimal_u64(version as u64)));
    push_chars(&mut m, &chars_of("）导出的，当前只认到 v"));
    push_chars(&mut m, &ascii_to_chars(&decimal_u64(FORMAT_VERSION as u64)));
    Err(AppError::Validation(string_of(&m)))
}

/// What an entry of an archive is to the restore.
pub enum EntryTarget {
    /// Not a media file (the JSON parts of the archive).
    Other,
    /// A media file whose path would leave the data directory.
    Suspicious,
    /// A media file and where it goes, relative to the data directory.
    File(String),
}

pub open spec fn files_prefix() -> Seq<char> {
    FILES_PREFIX@
}

/// Where an archive entry goes: media files lie under `files/`, and their
/// paths must be clean relative paths.
pub fn entry_target(name: &str) -> (t: EntryTarget)
    ensures
        !starts_with(name@, files_prefix()) ==> t is Other,
        starts_with(name@, files_prefix()) ==> match safe_relative_spec(
            name@.skip(files_prefix().len() as int),
        ) {
            Some(p) => t is File && t->File_0@ == p,
            None => t is Suspicious,
        },
{
    let chars = chars_of(name);
    let prefix = chars_of(FILES_PREFIX);
    if !has_prefix(&chars, &prefix) {
        return EntryTarget::Other;
    }
    let rest = crate::text::copy_chars(&chars, prefix.len(), chars.len());
    assert(rest@ =~= name@.skip(files_prefix().len() as int));
    match safe_relative(string_of(&rest).as_str()) {
        Some(p) => EntryTarget::File(p),
        None => EntryTarget::Suspicious,
    }
}

/// The tables whose deletions an archive replays.
#[derive(PartialEq, Eq, Structural, Clone, Copy, Debug)]
pub enum DeletedTable {
    Moments,
    Media,
}

/// The table a deletion record names; other names are skipped.
pub fn deleted_table(table_name: &str) -> (t: Option<DeletedTable>)
    ensures
        t == (if table_name@ == "moments"@ {
            Some(DeletedTable::Moments)
        } else if table_name@ == "media"@ {
            Some(DeletedTable::Media)
        } else {
            None
        }),
{
    let chars = chars_of(table_name);
    if chars_eq(&chars, &chars_of("moments")) {
        Some(DeletedTable::Moments)
    } else if chars_eq(&chars, &chars_of("media")) {
        Some(DeletedTable::Media)
    } else {
        None
    }
}

/// The tagging status a restored media row gets: its own, or `pending`
/// when the archive has none.
pub fn restored_tag_status(status: &str) -> (s: String)
    ensures
        s@ == (if status@.len() == 0 {
            "pending"@
        } else {
            status@
        }),
{
    let chars = chars_of(status);
    if chars.len() == 0 {
        string_of(&chars_of("pending"))
    } else {
        string_of(&chars)
    }
}

// ------------------------------------------------------------------ reports

/// What one restore, or a batch of them, did.
pub struct RestoreReport {
    /// Moments written (new, or newer than the local copy).
    pub moments_added: u64,
    /// Moments whose local copy was as new or newer.
    pub moments_skipped: u64,
    pub media_added: u64,
    pub media_skipped: u64,
    pub tags_added: u64,
    pub files_written: u64,
    pub files_skipped: u64,
    /// Deletions replayed from the archive.
    pub deletions_applied: u64,
    /// One line per archive that could not be restored.
    pub failed: Vec<String>,
}

/// The counters of a report, in field order.
pub open spec fn counters(r: RestoreReport) -> Seq<int> {
    seq![
        r.moments_added as int,
        r.moments_skipped as int,
        r.media_added as int,
        r.media_skipped as int,
        r.tags_added as int,
        r.files_written as int,
        r.files_skipped as int,
        r.deletions_applied as int,
    ]
}

/// The kinds of row a restore writes.
#[derive(PartialEq, Eq, Structural, Clone, Copy, Debug)]
pub enum RestoredRow {
    /// A replayed deletion; counts the rows it removed.
    Deletion,
    /// A tag; counts the rows inserted.
    Tag,
    /// A moment; counts as added when a row was written, else as skipped.
    Moment,
    /// A media row; counts as added when a row was written, else as skipped.
    Media,
}

/// The counters after one row: `affected` is how many rows the statement
/// changed.
pub open spec fn recorded(c: Seq<int>, row: RestoredRow, affected: int) -> Seq<int> {
    match row {
        RestoredRow::Deletion => c.update(7, c[7] + affected),
        RestoredRow::Tag => c.update(4, c[4] + affected),
        RestoredRow::Moment => if affected > 0 {
            c.update(0, c[0] + 1)
        } else {
            c.update(1, c[1] + 1)
        },
        RestoredRow::Media => if affected > 0 {
            c.update(2, c[2] + 1)
        } else {
            c.update(3, c[3] + 1)
        },
    }
}

pub open spec fn fits_u64(c: Seq<int>) -> bool {
    forall|i: int| 0 <= i < c.len() ==> #[trigger] c[i] <= u64::MAX
}

impl RestoreReport {
    /// The report of one archive after its files were unpacked.
    pub fn unpacked(files_written: u64, files_skipped: u64) -> (r: RestoreReport)
        ensures
            counters(r) == seq![0, 0, 0, 0, 0, files_written as int, files_skipped as int, 0],
            r.failed@.len() == 0,
    {
        RestoreReport {
            moments_added: 0,
            moments_skipped: 0,
            media_added: 0,
            media_skipped: 0,
            tags_added: 0,
            files_written,
            files_skipped,
            deletions_applied: 0,
            failed: Vec::new(),
        }
    }

    /// Counts one restored row.
    pub fn record(&mut self, row: RestoredRow, affected: u64)
        requires
            fits_u64(recorded(counters(*old(self)), row, affected as int)),
        ensures
            counters(*final(self)) == recorded(counters(*old(self)), row, affected as int),
            final(self).failed@ == old(self).failed@,
    {
        let ghost c = counters(*self);
        assert(recorded(c, row, affected as int).len() == 8);
        match row {
            RestoredRow::Deletion => {
                assert(recorded(c, row, affected as int)[7] <= u64::MAX);
                self.deletions_applied = self.deletions_applied + affected;
            },
            RestoredRow::Tag => {
                assert(recorded(c, row, affected as int)[4] <= u64::MAX);
                self.tags_added = self.tags_added + affected;
            },
            RestoredRow::Moment => if affected > 0 {
                assert(recorded(c, row, affected as int)[0] <= u64::MAX);
                self.moments_added = self.moments_added + 1;
            } else {
                assert(recorded(c, row, affected as int)[1] <= u64::MAX);
                self.moments_skipped = self.moments_skipped + 1;
            },
            RestoredRow::Media => if affected > 0 {
                assert(recorded(c, row, affected as int)[2] <= u64::MAX);
                self.media_added = self.media_added + 1;
            } else {
                assert(recorded(c, row, affected as int)[3] <= u64::MAX);
                self.media_skipped = self.media_skipped + 1;
            },
        }
        assert(counters(*self) =~= recorded(c, row, affected as int));
    }

    /// Counts one restored row when every counter still fits a `u64`;
    /// otherwise leaves the report as it was and answers `false`.
    pub fn try_record(&mut self, row: RestoredRow, affected: u64) -> (ok: bool)
        ensures
            ok == fits_u64(recorded(counters(*old(self)), row, affected as int)),
            ok ==> counters(*final(self)) == recorded(counters(*old(self)), row, affected as int),
            !ok ==> *final(self) == *old(self),
            final(self).failed@ == old(self).failed@,
    {
        let ghost c = counters(*self);
        let ghost next = recorded(c, row, affected as int);
        let fits = match row {
            RestoredRow::Deletion => self.deletions_applied <= u64::MAX - affected,
            RestoredRow::Tag => self.tags_added <= u64::MAX - affected,
            RestoredRow::Moment => if affected > 0 {
                self.moments_added < u64::MAX
            } else {
                self.moments_skipped < u64::MAX
            },
            RestoredRow::Media => if affected > 0 {
                self.media_added < u64::MAX
            } else {
                self.media_skipped < u64::MAX
            },
        };
        proof {
            assert(next.len() == 8);
            if fits {
                assert forall|i: int| 0 <= i < next.len() implies #[trigger] next[i] <= u64::MAX by {
                    assert(c[i] <= u64::MAX);
                }
            } else {
                let k: int = match row {
                    RestoredRow::Deletion => 7,
                    RestoredRow::Tag => 4,
                    RestoredRow::Moment => if affected > 0 { 0 } else { 1 },
                    RestoredRow::Media => if affected > 0 { 2 } else { 3 },
                };
                assert(next[k] > u64::MAX);
            }
        }
        if fits {
            self.record(row, affected);
        }
        fits
    }

    /// Adds another report's counters when every sum fits a `u64`;
    /// otherwise leaves the total as it was and answers `false`.
    pub fn try_absorb(&mut self, other: &RestoreReport) -> (ok: bool)
        ensures
            ok == (forall|i: int|
                0 <= i < 8 ==> #[trigger] counters(*old(self))[i] + counters(*other)[i] <= u64::MAX),
            ok ==> forall|i: int|
                0 <= i < 8 ==> #[trigger] counters(*final(self))[i] == counters(*old(self))[i]
                    + counters(*other)[i],
            !ok ==> *final(self) == *old(self),
            final(self).failed@ == old(self).failed@,
    {
        let ghost a = counters(*self);
        let ghost b = counters(*other);
        let fits = self.moments_added <= u64::MAX - other.moments_added
            && self.moments_skipped <= u64::MAX - other.moments_skipped
            && self.media_added <= u64::MAX - other.media_added
            && self.media_skipped <= u64::MAX - other.media_skipped
            && self.tags_added <= u64::MAX - other.tags_added
            && self.files_written <= u64::MAX - other.files_written
            && self.files_skipped <= u64::MAX - other.files_skipped
            && self.deletions_applied <= u64::MAX - other.deletions_applied;
        proof {
            if !fits {
                if a[0] + b[0] > u64::MAX {
                } else if a[1] + b[1] > u64::MAX {
                } else if a[2] + b[2] > u64::MAX {
                } else if a[3] + b[3] > u64::MAX {
                } else if a[4] + b[4] > u64::MAX {
                } else if a[5] + b[5] > u64::MAX {
                } else if a[6] + b[6] > u64::MAX {
                } else {
                    assert(a[7] + b[7] > u64::MAX);
                }
            }
        }
        if fits {
            self.absorb(other);
        }
        fits
    }

    /// Adds the counters of another archive's report to this total.
    pub fn absorb(&mut self, other: &RestoreReport)
        requires
            forall|i: int|
                0 <= i < 8 ==> #[trigger] counters(*old(self))[i] + counters(*other)[i] <= u64::MAX,
        ensures
            forall|i: int|
                0 <= i < 8 ==> #[trigger] counters(*final(self))[i] == counters(*old(self))[i]
                    + counters(*other)[i],
            final(self).failed@ == old(self).failed@,
    {
        let ghost a = counters(*self);
        let ghost b = counters(*other);
        assert(a[0] + b[0] <= u64::MAX && a[1] + b[1] <= u64::MAX && a[2] + b[2] <= u64::MAX
            && a[3] + b[3] <= u64::MAX && a[4] + b[4] <= u64::MAX && a[5] + b[5] <= u64::MAX
            && a[6] + b[6] <= u64::MAX && a[7] + b[7] <= u64::MAX);
        self.moments_added = self.moments_added + other.moments_added;
        self.moments_skipped = self.moments_skipped + other.moments_skipped;
        self.media_added = self.media_added + other.media_added;
        self.media_skipped = self.media_skipped + other.media_skipped;
        self.tags_added = self.tags_added + other.tags_added;
        self.files_written = self.files_written + other.files_written;
        self.files_skipped = self.files_skipped + other.files_skipped;
        self.deletions_applied = self.deletions_applied + other.deletions_applied;
    }

    /// Notes an archive that could not be restored: its name and why.
    pub fn note_failure(&mut self, archive: &str, err: &AppError)
        ensures
            counters(*final(self)) == counters(*old(self)),
            final(self).failed@.len() == old(self).failed@.len() + 1,
            forall|i: int| 0 <= i < old(self).failed@.len() ==> #[trigger] final(self).failed@[i] == old(self).failed@[i],
            final(self).failed@.last()@ == archive@ + "："@ + message_spec(*err),
    {
        let mut line = chars_of(archive);
        push_chars(&mut line, &chars_of("："));
        push_chars(&mut line, &chars_of(err.message().as_str()));
        self.failed.push(string_of(&line));
    }
}

/// The report of a batch with nothing in it yet.
impl Default for RestoreReport {
    fn default() -> (r: RestoreReport)
        ensures
            counters(r) == seq![0int, 0, 0, 0, 0, 0, 0, 0],
            r.failed@.len() == 0,
    {
        RestoreReport::unpacked(0, 0)
    }
}

/// How many rows and files an archive holds.
pub struct Counts {
    pub moments: usize,
    pub media: usize,
    pub tags: usize,
    pub files: usize,
    pub deletions: usize,
}

/// One archive in the backup directory.
pub struct BackupFile {
    pub name: String,
    pub size_bytes: u64,
    /// When the file was last written.
    pub created_at: i128,
    /// `base` or `delta`.
    pub kind: String,
}

impl BackupFile {
    /// An archive found in the backup directory; its kind is read from its
    /// name.
    pub fn listed(name: String, size_bytes: u64, created_at: i128) -> (f: BackupFile)
        ensures
            f.name@ == name@,
            f.size_bytes == size_bytes,
            f.created_at == created_at,
            f.kind@ == (if contains_text(name@, "-delta"@) {
                "delta"@
            } else {
                "base"@
            }),
    {
        let kind = kind_of(name.as_str());
        BackupFile { name, size_bytes, created_at, kind }
    }
}

/// The backup settings shown on the settings page.
pub struct BackupSettings {
    /// Days between automatic backups; 0 turns them off.
    pub interval_days: i64,
    /// The backup directory (absolute).
    pub dir: String,
    /// The default directory, for reference.
    pub default_dir: String,
}

/// A settings change.
pub struct BackupSettingsInput {
    pub interval_days: i64,
    /// Empty means the default directory; `None` leaves the directory alone.
    pub dir: Option<String>,
}

// ------------------------------------------------------------------ uploads

/// The name an uploaded archive is known by: the last part of the file
/// name it came with, or `backup-<n>.zip` for the `n`th upload without one.
pub fn upload_name(file_name: Option<&str>, index: usize) -> (name: String)
    ensures
        name@ == (match file_name {
            Some(f) => last_part(f@),
            None => "backup-"@ + ascii_chars(nat_decimal(index as nat)) + ".zip"@,
        }),
{
    match file_name {
        Some(f) => string_of(&last_part_of(f)),
        None => {
            let mut m = chars_of("backup-");
            push_chars(&mut m, &ascii_to_chars(&decimal_u64(index as u64)));
            push_chars(&mut m, &chars_of(".zip"));
            string_of(&m)
        },
    }
}

/// The temporary file name under which the `index`th upload is kept until
/// it is replayed: a random UUID keeps concurrent imports apart.
pub fn staging_name(index: usize) -> (name: String)
    ensures
        exists|id: Seq<char>|
            crate::crypto::is_uuid_text(id) && #[trigger] (name@) == "import-"@ + id + "-"@ + ascii_chars(
                nat_decimal(index as nat),
            ) + ".zip"@,
{
    let id = crate::crypto::uuid_v4_text();
    assert(crate::crypto::is_uuid_text(id@));
    let mut m = chars_of("import-");
    push_chars(&mut m, &chars_of(id.as_str()));
    push_chars(&mut m, &chars_of("-"));
    push_chars(&mut m, &ascii_to_chars(&decimal_u64(index as u64)));
    push_chars(&mut m, &chars_of(".zip"));
    let name = string_of(&m);
    assert(name@ == "import-"@ + id@ + "-"@ + ascii_chars(nat_decimal(index as nat)) + ".zip"@);
    name
}

/// The size of an upload after one more chunk, refused once it exceeds
/// `MAX_IMPORT_BYTES`.
pub fn accept_chunk(size: u64, chunk: usize) -> (r: Result<u64, AppError>)
    ensures
        size + chunk <= MAX_IMPORT_BYTES ==> r == Ok::<u64, AppError>((size + chunk) as u64),
        size + chunk > MAX_IMPORT_BYTES ==> r is Err && r->Err_0 is PayloadTooLarge
            && r->Err_0->PayloadTooLarge_0@ == "这个包太大了，超过 32G"@,
{
    if (size as u128) + (chunk as u128) > MAX_IMPORT_BYTES as u128 {
        return Err(AppError::PayloadTooLarge(string_of(&chars_of("这个包太大了，超过 32G"))));
    }
    Ok(size + chunk as u64)
}

/// An import must bring at least one archive.
pub fn check_staged(count: usize) -> (r: Result<(), AppError>)
    ensures
        count > 0 ==> r is Ok,
        count == 0 ==> r is Err && r->Err_0 is Validation && r->Err_0->Validation_0@
            == "没有收到备份文件"@,
{
    if count == 0 {
        return Err(AppError::validation("没有收到备份文件"));
    }
    Ok(())
}

} // verus!
