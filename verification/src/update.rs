//! Release checks: version tags, their order, and the notes shown for a release.
use vstd::prelude::*;

use crate::models::AppUpdateInfo;
use crate::text::{is_blank, is_ws, owned, push_char, str_eq, trim, trim_seq, string_views};

verus! {

/// A decimal digit.
pub open spec fn is_digit(c: char) -> bool {
    '0' <= c && c <= '9'
}

/// The value of a string of decimal digits.
pub open spec fn digits_value(s: Seq<char>) -> nat
    decreases s.len(),
{
    if s.len() == 0 {
        0
    } else {
        digits_value(s.drop_last()) * 10 + ((s.last() as int) - 48) as nat
    }
}

/// `s` without one leading `+`.
pub open spec fn without_plus(s: Seq<char>) -> Seq<char> {
    if s.len() > 0 && s[0] == '+' {
        s.skip(1)
    } else {
        s
    }
}

/// Every character of `d` is a decimal digit.
pub open spec fn all_digits(d: Seq<char>) -> bool {
    forall|i: int| 0 <= i < d.len() ==> is_digit(#[trigger] d[i])
}

/// What `str::parse::<u32>` gives: an optional `+`, then at least one
/// decimal digit and nothing else, the value fitting in a `u32`.
pub open spec fn parse_u32_spec(s: Seq<char>) -> Option<u32> {
    let d = without_plus(s);
    if d.len() > 0 && all_digits(d) && digits_value(d) <= u32::MAX {
        Some(digits_value(d) as u32)
    } else {
        None
    }
}

/// Parses a `u32` in decimal as `str::parse` does.
pub fn parse_u32(s: &str) -> (r: Option<u32>)
    ensures
        r == parse_u32_spec(s@),
{
    let n = s.unicode_len();
    let start: usize = if n > 0 && s.get_char(0) == '+' {
        1
    } else {
        0
    };
    let ghost d = s@.skip(start as int);
    let mut acc: u64 = 0;
    let mut ok = true;
    let mut i: usize = start;
    assert(d.take(0) =~= Seq::<char>::empty());
    while i < n
        invariant
            n == s@.len(),
            start <= i <= n,
            d == s@.skip(start as int),
            ok == forall|j: int| 0 <= j < i - start ==> is_digit(#[trigger] d[j]),
            ok ==> acc == if digits_value(d.take(i - start)) <= u32::MAX {
                digits_value(d.take(i - start))
            } else {
                u32::MAX as nat + 1
            },
        decreases n - i,
    {
        let c = s.get_char(i);
        let ghost k = (i - start) as int;
        assert(d[k] == c);
        assert(d.take(k + 1).drop_last() =~= d.take(k));
        assert(d.take(k + 1).last() == c);
        if ok && '0' <= c && c <= '9' {
            let digit = (c as u32 - 48) as u64;
            let next = acc * 10 + digit;
            acc = if next > u32::MAX as u64 {
                u32::MAX as u64 + 1
            } else {
                next
            };
        } else if !('0' <= c && c <= '9') {
            ok = false;
        }
        i = i + 1;
    }
    assert(d.take(n - start) =~= d);
    assert(d =~= without_plus(s@));
    if ok && n > start && acc <= u32::MAX as u64 {
        Some(acc as u32)
    } else {
        None
    }
}

/// `s` without the leading copies of `c`.
pub open spec fn drop_leading(s: Seq<char>, c: char) -> Seq<char>
    decreases s.len(),
{
    if s.len() > 0 && s[0] == c {
        drop_leading(s.skip(1), c)
    } else {
        s
    }
}

/// The part of `s` before its first `-` or `+`.
pub open spec fn before_suffix(s: Seq<char>) -> Seq<char>
    decreases s.len(),
{
    if s.len() == 0 {
        s
    } else if s[0] == '-' || s[0] == '+' {
        Seq::empty()
    } else {
        seq![s[0]] + before_suffix(s.skip(1))
    }
}

/// A version tag in canonical form: trimmed, without leading `v`s then `V`s,
/// and without a pre-release or build suffix after `-` or `+`.
pub open spec fn version_tag_spec(version: Seq<char>) -> Seq<char> {
    before_suffix(drop_leading(drop_leading(trim_seq(version), 'v'), 'V'))
}

fn skip_leading(s: &str, c: char) -> (r: String)
    ensures
        r@ == drop_leading(s@, c),
{
    let n = s.unicode_len();
    let mut i: usize = 0;
    assert(s@.skip(0) =~= s@);
    while i < n && s.get_char(i) == c
        invariant
            n == s@.len(),
            i <= n,
            drop_leading(s@, c) == drop_leading(s@.skip(i as int), c),
        decreases n - i,
    {
        assert(s@.skip(i as int)[0] == c);
        assert(s@.skip(i as int).skip(1) =~= s@.skip(i + 1));
        i = i + 1;
    }
    let r = s.substring_char(i, n).to_owned();
    assert(r@ =~= s@.skip(i as int));
    r
}

pub fn normalize_version_tag(version: &str) -> (r: String)
    ensures
        r@ == version_tag_spec(version@),
{
    let t = trim(version);
    let a = skip_leading(t.as_str(), 'v');
    let b = skip_leading(a.as_str(), 'V');
    let s = b.as_str();
    let n = s.unicode_len();
    let mut out = String::new();
    let mut i: usize = 0;
    assert(s@.skip(0) =~= s@);
    while i < n && s.get_char(i) != '-' && s.get_char(i) != '+'
        invariant
            n == s@.len(),
            i <= n,
            out@ + before_suffix(s@.skip(i as int)) == before_suffix(s@),
        decreases n - i,
    {
        let c = s.get_char(i);
        assert(s@.skip(i as int)[0] == c);
        assert(s@.skip(i as int).skip(1) =~= s@.skip(i + 1));
        let ghost prev = out@;
        push_char(&mut out, c);
        assert(out@ + before_suffix(s@.skip(i + 1)) =~= prev + before_suffix(s@.skip(i as int)));
        i = i + 1;
    }
    if i < n {
        assert(s@.skip(i as int)[0] == s@[i as int]);
    }
    assert(out@ + before_suffix(s@.skip(i as int)) =~= out@);
    out
}

/// The pieces of `s` between the separator `c`, empty ones included (`str::split`).
pub open spec fn split_on(s: Seq<char>, c: char) -> Seq<Seq<char>>
    decreases s.len(),
{
    if s.len() == 0 {
        seq![Seq::empty()]
    } else {
        let r = split_on(s.drop_last(), c);
        if s.last() == c {
            r.push(Seq::empty())
        } else {
            r.update(r.len() - 1, r.last().push(s.last()))
        }
    }
}

proof fn lemma_split_nonempty(s: Seq<char>, c: char)
    ensures
        split_on(s, c).len() >= 1,
    decreases s.len(),
{
    if s.len() > 0 {
        lemma_split_nonempty(s.drop_last(), c);
    }
}

/// Splits `s` at each `c`, as `str::split` does.
pub fn split_char(s: &str, c: char) -> (r: Vec<String>)
    ensures
        string_views(r@) == split_on(s@, c),
{
    let n = s.unicode_len();
    let mut pieces: Vec<String> = Vec::new();
    let mut cur = String::new();
    let mut i: usize = 0;
    assert(s@.take(0) =~= Seq::<char>::empty());
    while i < n
        invariant
            n == s@.len(),
            i <= n,
            string_views(pieces@).push(cur@) == split_on(s@.take(i as int), c),
        decreases n - i,
    {
        proof {
            lemma_split_nonempty(s@.take(i as int), c);
        }
        assert(s@.take(i + 1).drop_last() =~= s@.take(i as int));
        let ch = s.get_char(i);
        assert(s@.take(i + 1).last() == ch);
        let ghost prev_pieces = string_views(pieces@);
        let ghost prev_cur = cur@;
        if ch == c {
            let done = cur;
            pieces.push(done);
            cur = String::new();
            assert(string_views(pieces@) =~= prev_pieces.push(prev_cur));
            assert(string_views(pieces@).push(cur@) =~= prev_pieces.push(prev_cur).push(Seq::empty()));
        } else {
            push_char(&mut cur, ch);
            assert(string_views(pieces@).push(cur@) =~= prev_pieces.push(prev_cur).update(
                prev_pieces.len() as int,
                prev_cur.push(ch),
            ));
        }
        i = i + 1;
    }
    assert(s@.take(n as int) =~= s@);
    let ghost before = string_views(pieces@);
    pieces.push(cur);
    assert(string_views(pieces@) =~= before.push(cur@));
    pieces
}

/// The numbers of a version: its parts between dots, each read as a `u32`
/// or `0` when it is not one.
pub open spec fn version_parts_spec(version: Seq<char>) -> Seq<u32> {
    split_on(version, '.').map_values(
        |p: Seq<char>|
            match parse_u32_spec(p) {
                Some(v) => v,
                None => 0,
            },
    )
}

pub fn version_parts(version: &str) -> (r: Vec<u32>)
    ensures
        r@ == version_parts_spec(version@),
{
    let pieces = split_char(version, '.');
    let ghost ps = string_views(pieces@);
    let mut out: Vec<u32> = Vec::new();
    let mut i: usize = 0;
    while i < pieces.len()
        invariant
            ps == string_views(pieces@),
            ps == split_on(version@, '.'),
            i <= pieces@.len(),
            out@ =~= ps.take(i as int).map_values(
                |p: Seq<char>|
                    match parse_u32_spec(p) {
                        Some(v) => v,
                        None => 0,
                    },
            ),
        decreases pieces@.len() - i,
    {
        let v = match parse_u32(pieces[i].as_str()) {
            Some(v) => v,
            None => 0,
        };
        out.push(v);
        assert(ps.take(i + 1) =~= ps.take(i as int).push(ps[i as int]));
        i = i + 1;
    }
    assert(ps.take(pieces@.len() as int) =~= ps);
    out
}

/// Part `i` of a version, `0` past its end.
pub open spec fn part_at(p: Seq<u32>, i: int) -> u32 {
    if 0 <= i < p.len() {
        p[i]
    } else {
        0
    }
}

/// Comparing parts from position `i` on, the first difference decides.
pub open spec fn parts_newer_from(a: Seq<u32>, b: Seq<u32>, i: nat) -> bool
    decreases (if a.len() > b.len() {
        a.len()
    } else {
        b.len()
    }) - i,
{
    if i >= a.len() && i >= b.len() {
        false
    } else if part_at(a, i as int) != part_at(b, i as int) {
        part_at(a, i as int) > part_at(b, i as int)
    } else {
        parts_newer_from(a, b, i + 1)
    }
}

/// `latest` is a newer version than `current`: at the first part where they
/// differ, missing parts counting as `0`, `latest` is larger.
pub open spec fn version_newer_spec(latest: Seq<char>, current: Seq<char>) -> bool {
    parts_newer_from(version_parts_spec(latest), version_parts_spec(current), 0)
}

pub fn version_is_newer(latest: &str, current: &str) -> (r: bool)
    ensures
        r == version_newer_spec(latest@, current@),
{
    let a = version_parts(latest);
    let b = version_parts(current);
    let n = if a.len() > b.len() {
        a.len()
    } else {
        b.len()
    };
    let mut i: usize = 0;
    while i < n
        invariant
            n == (if a@.len() > b@.len() {
                a@.len()
            } else {
                b@.len()
            }),
            i <= n,
            a@ == version_parts_spec(latest@),
            b@ == version_parts_spec(current@),
            parts_newer_from(a@, b@, 0) == parts_newer_from(a@, b@, i as nat),
        decreases n - i,
    {
        let x = if i < a.len() {
            a[i]
        } else {
            0
        };
        let y = if i < b.len() {
            b[i]
        } else {
            0
        };
        assert(x == part_at(a@, i as int) && y == part_at(b@, i as int));
        if x != y {
            return x > y;
        }
        i = i + 1;
    }
    false
}

/// No version is newer than itself.
pub proof fn lemma_version_not_newer_than_itself(v: Seq<char>)
    ensures
        !version_newer_spec(v, v),
{
    lemma_parts_irreflexive(version_parts_spec(v), 0);
}

proof fn lemma_parts_irreflexive(a: Seq<u32>, i: nat)
    ensures
        !parts_newer_from(a, a, i),
    decreases a.len() - i,
{
    if i < a.len() {
        lemma_parts_irreflexive(a, i + 1);
    }
}

/// Of two versions, at most one is newer than the other.
pub proof fn lemma_version_newer_asymmetric(a: Seq<char>, b: Seq<char>)
    ensures
        !(version_newer_spec(a, b) && version_newer_spec(b, a)),
{
    lemma_parts_asymmetric(version_parts_spec(a), version_parts_spec(b), 0);
}

proof fn lemma_parts_asymmetric(a: Seq<u32>, b: Seq<u32>, i: nat)
    ensures
        !(parts_newer_from(a, b, i) && parts_newer_from(b, a, i)),
    decreases (if a.len() > b.len() {
        a.len()
    } else {
        b.len()
    }) - i,
{
    if !(i >= a.len() && i >= b.len()) && part_at(a, i as int) == part_at(b, i as int) {
        lemma_parts_asymmetric(a, b, i + 1);
    }
}

/// Being newer is transitive.
pub proof fn lemma_version_newer_transitive(a: Seq<char>, b: Seq<char>, c: Seq<char>)
    requires
        version_newer_spec(a, b),
        version_newer_spec(b, c),
    ensures
        version_newer_spec(a, c),
{
    lemma_parts_transitive(version_parts_spec(a), version_parts_spec(b), version_parts_spec(c), 0);
}

proof fn lemma_parts_transitive(a: Seq<u32>, b: Seq<u32>, c: Seq<u32>, i: nat)
    requires
        parts_newer_from(a, b, i),
        parts_newer_from(b, c, i),
    ensures
        parts_newer_from(a, c, i),
    decreases (if a.len() > b.len() {
        if a.len() > c.len() {
            a.len()
        } else {
            c.len()
        }
    } else if b.len() > c.len() {
        b.len()
    } else {
        c.len()
    }) - i,
{
    if part_at(a, i as int) == part_at(b, i as int) && part_at(b, i as int) == part_at(c, i as int) {
        lemma_parts_transitive(a, b, c, i + 1);
    }
}

/// The notes with white space trimmed, blank ones left out.
pub open spec fn trimmed_notes(ns: Seq<Seq<char>>) -> Seq<Seq<char>>
    decreases ns.len(),
{
    if ns.len() == 0 {
        Seq::empty()
    } else {
        let rest = trimmed_notes(ns.drop_last());
        let t = trim_seq(ns.last());
        if t.len() > 0 {
            rest.push(t)
        } else {
            rest
        }
    }
}

/// A bullet that may start a changelog line.
pub open spec fn is_bullet(c: char) -> bool {
    c == '-' || c == '*' || c == '•'
}

/// `s` without its leading bullets.
pub open spec fn drop_bullets(s: Seq<char>) -> Seq<char>
    decreases s.len(),
{
    if s.len() > 0 && is_bullet(s[0]) {
        drop_bullets(s.skip(1))
    } else {
        s
    }
}

/// A changelog line as a note: trimmed, its bullets removed, trimmed again.
pub open spec fn clean_line(line: Seq<char>) -> Seq<char> {
    trim_seq(drop_bullets(trim_seq(line)))
}

/// The changelog lines as notes, blank ones left out.
pub open spec fn changelog_notes(lines: Seq<Seq<char>>) -> Seq<Seq<char>>
    decreases lines.len(),
{
    if lines.len() == 0 {
        Seq::empty()
    } else {
        let rest = changelog_notes(lines.drop_last());
        let t = clean_line(lines.last());
        if t.len() > 0 {
            rest.push(t)
        } else {
            rest
        }
    }
}

/// The notes of a release: the given notes when some is not blank,
/// otherwise the non-blank lines of the changelog without their bullets.
pub open spec fn release_notes_spec(notes: Option<Seq<Seq<char>>>, changelog: Option<Seq<char>>) -> Seq<Seq<char>> {
    let given = match notes {
        Some(ns) => trimmed_notes(ns),
        None => Seq::empty(),
    };
    if given.len() > 0 {
        given
    } else {
        changelog_notes(
            split_on(
                match changelog {
                    Some(c) => c,
                    None => Seq::empty(),
                },
                '\n',
            ),
        )
    }
}

fn strip_bullets(s: &str) -> (r: String)
    ensures
        r@ == drop_bullets(s@),
{
    let n = s.unicode_len();
    let mut i: usize = 0;
    assert(s@.skip(0) =~= s@);
    while i < n && (s.get_char(i) == '-' || s.get_char(i) == '*' || s.get_char(i) == '•')
        invariant
            n == s@.len(),
            i <= n,
            drop_bullets(s@) == drop_bullets(s@.skip(i as int)),
        decreases n - i,
    {
        assert(s@.skip(i as int)[0] == s@[i as int]);
        assert(s@.skip(i as int).skip(1) =~= s@.skip(i + 1));
        i = i + 1;
    }
    if i < n {
        assert(s@.skip(i as int)[0] == s@[i as int]);
    }
    let r = s.substring_char(i, n).to_owned();
    assert(r@ =~= s@.skip(i as int));
    r
}

pub fn normalize_release_notes(notes: Option<Vec<String>>, changelog: Option<String>) -> (r: Vec<String>)
    ensures
        string_views(r@) == release_notes_spec(
            match notes {
                Some(ns) => Some(string_views(ns@)),
                None => None,
            },
            match changelog {
                Some(c) => Some(c@),
                None => None,
            },
        ),
{
    let mut given: Vec<String> = Vec::new();
    match &notes {
        Some(ns) => {
            let ghost nv = string_views(ns@);
            let mut i: usize = 0;
            while i < ns.len()
                invariant
                    nv == string_views(ns@),
                    i <= ns@.len(),
                    string_views(given@) == trimmed_notes(nv.take(i as int)),
                decreases ns@.len() - i,
            {
                assert(nv.take(i + 1).drop_last() =~= nv.take(i as int));
                assert(nv.take(i + 1).last() == ns@[i as int]@);
                let t = trim(ns[i].as_str());
                if t.as_str().unicode_len() > 0 {
                    let ghost prev = string_views(given@);
                    given.push(t);
                    assert(string_views(given@) =~= prev.push(trim_seq(ns@[i as int]@)));
                }
                i = i + 1;
            }
            assert(nv.take(ns@.len() as int) =~= nv);
        },
        None => {},
    }
    if given.len() > 0 {
        return given;
    }
    let text = match changelog {
        Some(c) => c,
        None => String::new(),
    };
    let lines = split_char(text.as_str(), '\n');
    let ghost lv = string_views(lines@);
    let mut out: Vec<String> = Vec::new();
    let mut k: usize = 0;
    while k < lines.len()
        invariant
            lv == string_views(lines@),
            k <= lines@.len(),
            string_views(out@) == changelog_notes(lv.take(k as int)),
        decreases lines@.len() - k,
    {
        assert(lv.take(k + 1).drop_last() =~= lv.take(k as int));
        assert(lv.take(k + 1).last() == lines@[k as int]@);
        let a = trim(lines[k].as_str());
        let b = strip_bullets(a.as_str());
        let c = trim(b.as_str());
        if c.as_str().unicode_len() > 0 {
            let ghost prev = string_views(out@);
            out.push(c);
            assert(string_views(out@) =~= prev.push(clean_line(lines@[k as int]@)));
        }
        k = k + 1;
    }
    assert(lv.take(lines@.len() as int) =~= lv);
    out
}

/// Where releases are published.
pub open spec fn download_page_spec() -> Seq<char> {
    "https://crescendum.lanzout.com/b00rp145sh"@
}

/// The release description published for the application.
#[derive(Debug)]
pub struct UpdateManifest {
    pub version: String,
    pub download_url: String,
    pub title: Option<String>,
    pub message: Option<String>,
    pub notes: Option<Vec<String>>,
    pub changelog: Option<String>,
}

/// The answer when no release could be read: the current version, no update.
pub fn fallback_update_info(current_version: String) -> (r: AppUpdateInfo)
    ensures
        r.current_version == current_version,
        r.latest_version == current_version,
        !r.has_update,
        r.release_page_url@ == download_page_spec(),
        r.release_name is None,
        r.release_message is None,
        r.release_notes@.len() == 0,
{
    AppUpdateInfo {
        latest_version: current_version.clone(),
        current_version,
        has_update: false,
        release_page_url: owned("https://crescendum.lanzout.com/b00rp145sh"),
        release_name: None,
        release_message: None,
        release_notes: Vec::new(),
    }
}

/// What a release description says against the current version: nothing
/// new when its tag is empty; otherwise its tag, whether it is newer, its
/// page (the default one when blank), title, message and notes.
pub fn update_info_from_manifest(current_version: String, manifest: UpdateManifest) -> (r: AppUpdateInfo)
    ensures
        r.current_version == current_version,
        version_tag_spec(manifest.version@).len() == 0 ==> {
            &&& r.latest_version == current_version
            &&& !r.has_update
            &&& r.release_page_url@ == download_page_spec()
            &&& r.release_name is None
            &&& r.release_message is None
            &&& r.release_notes@.len() == 0
        },
        version_tag_spec(manifest.version@).len() > 0 ==> {
            &&& r.latest_version@ == version_tag_spec(manifest.version@)
            &&& r.has_update == version_newer_spec(version_tag_spec(manifest.version@), current_version@)
            &&& r.release_page_url@ == if trim_seq(manifest.download_url@).len() == 0 {
                download_page_spec()
            } else {
                manifest.download_url@
            }
            &&& r.release_name == manifest.title
            &&& r.release_message == manifest.message
            &&& string_views(r.release_notes@) == release_notes_spec(
                match manifest.notes {
                    Some(ns) => Some(string_views(ns@)),
                    None => None,
                },
                match manifest.changelog {
                    Some(c) => Some(c@),
                    None => None,
                },
            )
        },
{
    let latest = normalize_version_tag(manifest.version.as_str());
    if latest.as_str().unicode_len() == 0 {
        return fallback_update_info(current_version);
    }
    let page = if is_blank(manifest.download_url.as_str()) {
        owned("https://crescendum.lanzout.com/b00rp145sh")
    } else {
        manifest.download_url
    };
    let notes = normalize_release_notes(manifest.notes, manifest.changelog);
    let has_update = version_is_newer(latest.as_str(), current_version.as_str());
    AppUpdateInfo {
        current_version,
        latest_version: latest,
        has_update,
        release_page_url: page,
        release_name: manifest.title,
        release_message: manifest.message,
        release_notes: notes,
    }
}

} // verus!
