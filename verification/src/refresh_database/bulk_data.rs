//! Scryfall's bulk data as stored locally: the downloaded JSON array turned
//! into one card record per line, its file name, the stored address of the
//! last download, and which old downloads to delete.

use vstd::prelude::*;

use crate::text::{chars_of, compare_str, push_char};

verus! {

// ---------------------------------------------------------------------------
// Lines

/// A line without the carriage return of a `\r\n` line ending.
pub open spec fn strip_cr(l: Seq<char>) -> Seq<char> {
    if l.len() > 0 && l.last() == '\r' {
        l.drop_last()
    } else {
        l
    }
}

/// The lines of `s`, continuing a line that already holds `cur`: lines end
/// at `\n` or `\r\n`; the last line needs no line ending, and a string that
/// ends with a line ending has no empty line after it (as `str::lines`).
pub open spec fn lines_from(s: Seq<char>, cur: Seq<char>) -> Seq<Seq<char>>
    decreases s.len(),
{
    if s.len() == 0 {
        if cur.len() == 0 {
            Seq::empty()
        } else {
            seq![cur]
        }
    } else if s[0] == '\n' {
        seq![strip_cr(cur)] + lines_from(s.drop_first(), Seq::empty())
    } else {
        lines_from(s.drop_first(), cur.push(s[0]))
    }
}

/// The lines of a text.
pub open spec fn text_lines(s: Seq<char>) -> Seq<Seq<char>> {
    lines_from(s, Seq::empty())
}

/// A line without its trailing commas.
pub open spec fn trim_commas(l: Seq<char>) -> Seq<char>
    decreases l.len(),
{
    if l.len() > 0 && l.last() == ',' {
        trim_commas(l.drop_last())
    } else {
        l
    }
}

/// Trimming removes exactly the trailing run of commas of a line: what is
/// left is a prefix of the line that does not end with a comma, and all that
/// was removed is commas.
pub proof fn trailing_commas_only(l: Seq<char>)
    ensures
        trim_commas(l).len() <= l.len(),
        trim_commas(l) == l.take(trim_commas(l).len() as int),
        forall|k: int| trim_commas(l).len() <= k < l.len() ==> l[k] == ',',
        trim_commas(l).len() > 0 ==> trim_commas(l).last() != ',',
    decreases l.len(),
{
    if l.len() > 0 && l.last() == ',' {
        let init = l.drop_last();
        trailing_commas_only(init);
        let t = trim_commas(init);
        assert(init.take(t.len() as int) =~= l.take(t.len() as int));
        assert forall|k: int| t.len() <= k < l.len() implies l[k] == ',' by {
            if k < l.len() - 1 {
                assert(l[k] == init[k]);
            }
        }
    } else {
        assert(l.take(l.len() as int) =~= l);
    }
}

/// Each line without its trailing commas.
pub open spec fn trim_all_commas(ls: Seq<Seq<char>>) -> Seq<Seq<char>> {
    ls.map_values(|l: Seq<char>| trim_commas(l))
}

/// Lines joined by `\n`.
pub open spec fn join_lines(ls: Seq<Seq<char>>) -> Seq<char>
    decreases ls.len(),
{
    if ls.len() == 0 {
        Seq::empty()
    } else if ls.len() == 1 {
        ls[0]
    } else {
        join_lines(ls.drop_last()) + seq!['\n'] + ls.last()
    }
}

/// The lines between the first and the last; none when there are at most two.
pub open spec fn inner_lines(ls: Seq<Seq<char>>) -> Seq<Seq<char>> {
    if ls.len() > 2 {
        ls.subrange(1, ls.len() - 1)
    } else {
        Seq::empty()
    }
}

/// The bulk data as one record per line: the array's opening and closing
/// lines dropped, and the comma that separates records removed.
pub open spec fn spec_ndjson(content: Seq<char>) -> Seq<char> {
    join_lines(trim_all_commas(inner_lines(text_lines(content))))
}

proof fn lemma_inner_push(ls: Seq<Seq<char>>, l: Seq<char>)
    ensures
        inner_lines(ls.push(l)) == if ls.len() >= 2 {
            inner_lines(ls).push(ls.last())
        } else {
            Seq::<Seq<char>>::empty()
        },
{
    if ls.len() >= 2 {
        assert(inner_lines(ls.push(l)) =~= inner_lines(ls).push(ls.last()));
    }
}

proof fn lemma_join_push(ls: Seq<Seq<char>>, l: Seq<char>)
    ensures
        join_lines(ls.push(l)) == if ls.len() == 0 {
            l
        } else {
            join_lines(ls) + seq!['\n'] + l
        },
{
    assert(ls.push(l).drop_last() =~= ls);
}

fn push_chars(out: &mut String, cs: &Vec<char>)
    ensures
        final(out)@ == old(out)@ + cs@,
{
    let n = cs.len();
    for k in 0..n
        invariant
            n == cs@.len(),
            out@ == old(out)@ + cs@.take(k as int),
    {
        push_char(out, cs[k]);
        assert(cs@.take(k + 1) =~= cs@.take(k as int).push(cs@[k as int]));
    }
    assert(cs@.take(n as int) =~= cs@);
}

fn pop_commas(cur: &mut Vec<char>)
    ensures
        final(cur)@ == trim_commas(old(cur)@),
{
    while cur.len() > 0 && cur[cur.len() - 1] == ','
        invariant
            trim_commas(cur@) == trim_commas(old(cur)@),
        decreases cur.len(),
    {
        let ghost before = cur@;
        cur.pop();
        assert(cur@ =~= before.drop_last());
    }
}

/// Emits the held line when a further line has been completed.
fn emit_held(out: &mut String, held: &Vec<char>, count: usize)
    requires
        count >= 2,
    ensures
        final(out)@ == if count >= 3 {
            old(out)@ + seq!['\n'] + held@
        } else {
            old(out)@ + held@
        },
{
    if count >= 3 {
        push_char(out, '\n');
    }
    push_chars(out, held);
}

/// The downloaded bulk data, a JSON array with one card per line, as one
/// card record per line (see `spec_ndjson`).
pub fn ndjson_from_bulk(content: &str) -> (r: String)
    ensures
        r@ == spec_ndjson(content@),
{
    let ghost all = content@;
    let mut out = String::new();
    let mut cur: Vec<char> = Vec::new();
    let mut held: Vec<char> = Vec::new();
    let mut count: usize = 0;
    let ghost mut done: Seq<Seq<char>> = Seq::empty();
    assert(all.skip(0) =~= all);
    for c in it: content.chars()
        invariant
            it.seq() == all,
            done + lines_from(all.skip(it.index() as int), cur@) == text_lines(all),
            count == if done.len() < 3 {
                done.len()
            } else {
                3
            },
            out@ == join_lines(trim_all_commas(inner_lines(done))),
            done.len() >= 1 ==> held@ == trim_commas(done.last()),
    {
        let ghost i = it.index() as int;
        assert(all.skip(i)[0] == c);
        assert(all.skip(i).drop_first() =~= all.skip(i + 1));
        if c == '\n' {
            let ghost line = strip_cr(cur@);
            if cur.len() > 0 && cur[cur.len() - 1] == '\r' {
                cur.pop();
            }
            assert(cur@ =~= line);
            proof {
                lemma_inner_push(done, line);
            }
            if count >= 2 {
                let ghost mid = inner_lines(done);
                emit_held(&mut out, &held, count);
                proof {
                    lemma_join_push(trim_all_commas(mid), trim_commas(done.last()));
                    assert(trim_all_commas(mid.push(done.last())) =~= trim_all_commas(mid).push(
                        trim_commas(done.last()),
                    ));
                }
            }
            pop_commas(&mut cur);
            held = cur;
            cur = Vec::new();
            proof {
                assert(done.push(line) + lines_from(all.skip(i + 1), Seq::empty()) =~= done + (
                seq![line] + lines_from(all.skip(i + 1), Seq::empty())));
                done = done.push(line);
            }
            if count < 3 {
                count = count + 1;
            }
        } else {
            cur.push(c);
        }
    }
    assert(all.skip(all.len() as int) =~= Seq::<char>::empty());
    if cur.len() > 0 {
        proof {
            assert(text_lines(all) =~= done.push(cur@));
            lemma_inner_push(done, cur@);
        }
        if count >= 2 {
            let ghost mid = inner_lines(done);
            emit_held(&mut out, &held, count);
            proof {
                lemma_join_push(trim_all_commas(mid), trim_commas(done.last()));
                assert(trim_all_commas(mid.push(done.last())) =~= trim_all_commas(mid).push(
                    trim_commas(done.last()),
                ));
            }
        }
    } else {
        assert(text_lines(all) =~= done);
    }
    out
}

// ---------------------------------------------------------------------------
// File names and the stored download address

/// Index of the last `/` of `s`, or -1.
pub open spec fn last_slash(s: Seq<char>) -> int
    decreases s.len(),
{
    if s.len() == 0 {
        -1
    } else if s.last() == '/' {
        s.len() - 1
    } else {
        last_slash(s.drop_last())
    }
}

/// The name under which a download is stored: what follows the last `/` of
/// its address, or `data.ndjson` when the address has no `/`.
pub open spec fn spec_bulk_data_file_name(url: Seq<char>) -> Seq<char> {
    if last_slash(url) >= 0 {
        url.skip(last_slash(url) + 1)
    } else {
        "data.ndjson"@
    }
}

proof fn lemma_last_slash(s: Seq<char>, j: int)
    requires
        -1 <= j < s.len(),
        j >= 0 ==> s[j] == '/',
        forall|k: int| j < k < s.len() ==> s[k] != '/',
    ensures
        last_slash(s) == j,
    decreases s.len(),
{
    if s.len() > 0 && s.last() != '/' {
        lemma_last_slash(s.drop_last(), j);
    }
}

proof fn lemma_last_slash_is_last(s: Seq<char>)
    ensures
        -1 <= last_slash(s) < s.len(),
        last_slash(s) >= 0 ==> s[last_slash(s)] == '/',
        forall|k: int| last_slash(s) < k < s.len() ==> s[k] != '/',
    decreases s.len(),
{
    if s.len() > 0 && s.last() != '/' {
        lemma_last_slash_is_last(s.drop_last());
        assert forall|k: int| last_slash(s) < k < s.len() implies s[k] != '/' by {
            if k < s.len() - 1 {
                assert(s[k] == s.drop_last()[k]);
            }
        }
    }
}

/// The stored name of a download with a `/` in its address is the whole
/// address after its last `/`: the address is some text ending in `/`
/// followed by the name, and the name holds no `/`. An address without a
/// `/` is stored as `data.ndjson`.
pub proof fn file_name_follows_the_last_slash(url: Seq<char>)
    ensures
        (exists|i: int| 0 <= i < url.len() && url[i] == '/') ==> {
            let name = spec_bulk_data_file_name(url);
            &&& name.len() < url.len()
            &&& url.skip(url.len() - name.len()) == name
            &&& url[url.len() - name.len() - 1] == '/'
            &&& forall|k: int| 0 <= k < name.len() ==> name[k] != '/'
        },
        !(exists|i: int| 0 <= i < url.len() && url[i] == '/') ==> spec_bulk_data_file_name(url)
            == "data.ndjson"@,
{
    lemma_last_slash_is_last(url);
    let j = last_slash(url);
    if exists|i: int| 0 <= i < url.len() && url[i] == '/' {
        let i = choose|i: int| 0 <= i < url.len() && url[i] == '/';
        assert(j >= 0);
        let name = url.skip(j + 1);
        assert(url.skip(url.len() - name.len()) =~= name);
        assert forall|k: int| 0 <= k < name.len() implies name[k] != '/' by {
            assert(name[k] == url[j + 1 + k]);
        }
    } else {
        if j >= 0 {
            assert(url[j] == '/');
        }
    }
}

/// The name under which a download is stored (see `spec_bulk_data_file_name`).
pub fn bulk_data_file_name(url: &str) -> (r: String)
    ensures
        r@ == spec_bulk_data_file_name(url@),
{
    let cs = chars_of(url);
    let n = cs.len();
    let mut j: usize = n;
    while j > 0
        invariant
            j <= n,
            n == cs@.len(),
            cs@ == url@,
            forall|k: int| j <= k < n ==> cs@[k] != '/',
        ensures
            j <= n,
            forall|k: int| j <= k < n ==> cs@[k] != '/',
            j > 0 ==> cs@[j - 1] == '/',
        decreases j,
    {
        if cs[j - 1] == '/' {
            break;
        }
        j = j - 1;
    }
    if j == 0 {
        proof {
            lemma_last_slash(url@, -1);
        }
        return String::from_str("data.ndjson");
    }
    proof {
        assert(cs@[j - 1] == '/');
        lemma_last_slash(url@, j - 1);
    }
    let mut r = String::new();
    for k in j..n
        invariant
            n == cs@.len(),
            cs@ == url@,
            r@ == url@.subrange(j as int, k as int),
    {
        push_char(&mut r, cs[k]);
        assert(url@.subrange(j as int, k + 1) =~= url@.subrange(j as int, k as int).push(
            url@[k as int],
        ));
    }
    r
}

/// The characters that `char::is_whitespace` accepts: Unicode's White_Space.
pub open spec fn is_space(c: char) -> bool {
    let v = c as int;
    ||| 0x09 <= v <= 0x0d
    ||| v == 0x20
    ||| v == 0x85
    ||| v == 0xa0
    ||| v == 0x1680
    ||| 0x2000 <= v <= 0x200a
    ||| v == 0x2028
    ||| v == 0x2029
    ||| v == 0x202f
    ||| v == 0x205f
    ||| v == 0x3000
}

fn is_space_exec(c: char) -> (r: bool)
    ensures
        r == is_space(c),
{
    ('\u{9}' <= c && c <= '\u{d}') || c == ' ' || c == '\u{85}' || c == '\u{a0}' || c
        == '\u{1680}' || ('\u{2000}' <= c && c <= '\u{200a}') || c == '\u{2028}' || c
        == '\u{2029}' || c == '\u{202f}' || c == '\u{205f}' || c == '\u{3000}'
}

/// `s` without leading white space.
pub open spec fn trim_start(s: Seq<char>) -> Seq<char>
    decreases s.len(),
{
    if s.len() > 0 && is_space(s[0]) {
        trim_start(s.drop_first())
    } else {
        s
    }
}

/// `s` without trailing white space.
pub open spec fn trim_end(s: Seq<char>) -> Seq<char>
    decreases s.len(),
{
    if s.len() > 0 && is_space(s.last()) {
        trim_end(s.drop_last())
    } else {
        s
    }
}

/// `s` without leading and trailing white space (as `str::trim`).
pub open spec fn trim(s: Seq<char>) -> Seq<char> {
    trim_end(trim_start(s))
}

proof fn lemma_trim_start(s: Seq<char>, a: int)
    requires
        0 <= a <= s.len(),
        forall|k: int| 0 <= k < a ==> is_space(s[k]),
        a < s.len() ==> !is_space(s[a]),
    ensures
        trim_start(s) == s.skip(a),
    decreases s.len(),
{
    if a > 0 {
        lemma_trim_start(s.drop_first(), a - 1);
        assert(s.drop_first().skip(a - 1) =~= s.skip(a));
    } else {
        assert(s.skip(0) =~= s);
    }
}

proof fn lemma_trim_end(s: Seq<char>, b: int)
    requires
        0 <= b <= s.len(),
        forall|k: int| b <= k < s.len() ==> is_space(s[k]),
        b > 0 ==> !is_space(s[b - 1]),
    ensures
        trim_end(s) == s.take(b),
    decreases s.len(),
{
    if b < s.len() {
        lemma_trim_end(s.drop_last(), b);
        assert(s.drop_last().take(b) =~= s.take(b));
    } else {
        assert(s.take(b) =~= s);
    }
}

/// An address written to the stored file reads back unchanged, so the same
/// address is not downloaded again: trimming leaves a non-empty text that
/// neither starts nor ends with white space as it is.
pub proof fn stored_url_round_trip(url: Seq<char>)
    requires
        url.len() > 0,
        !is_space(url[0]),
        !is_space(url.last()),
    ensures
        trim(url) == url,
        trim(url).len() > 0,
{
    lemma_trim_start(url, 0);
    assert(url.skip(0) =~= url);
    lemma_trim_end(url, url.len() as int);
    assert(url.take(url.len() as int) =~= url);
}

proof fn lemma_trim_start_at(s: Seq<char>) -> (a: int)
    ensures
        0 <= a <= s.len(),
        trim_start(s) == s.skip(a),
        forall|k: int| 0 <= k < a ==> is_space(s[k]),
        a < s.len() ==> !is_space(s[a]),
    decreases s.len(),
{
    if s.len() > 0 && is_space(s[0]) {
        let a1 = lemma_trim_start_at(s.drop_first());
        assert(s.drop_first().skip(a1) =~= s.skip(a1 + 1));
        assert forall|k: int| 0 <= k < a1 + 1 implies is_space(s[k]) by {
            if k > 0 {
                assert(s[k] == s.drop_first()[k - 1]);
            }
        }
        a1 + 1
    } else {
        assert(s.skip(0) =~= s);
        0
    }
}

proof fn lemma_trim_end_at(s: Seq<char>) -> (b: int)
    ensures
        0 <= b <= s.len(),
        trim_end(s) == s.take(b),
        forall|k: int| b <= k < s.len() ==> is_space(s[k]),
        b > 0 ==> !is_space(s[b - 1]),
    decreases s.len(),
{
    if s.len() > 0 && is_space(s.last()) {
        let b1 = lemma_trim_end_at(s.drop_last());
        assert(s.drop_last().take(b1) =~= s.take(b1));
        assert forall|k: int| b1 <= k < s.len() implies is_space(s[k]) by {
            if k < s.len() - 1 {
                assert(s[k] == s.drop_last()[k]);
            }
        }
        b1
    } else {
        assert(s.take(s.len() as int) =~= s);
        s.len() as int
    }
}

/// Trimming removes exactly the white space around a text: the result is the
/// text between some start and end, everything before the start and after
/// the end is white space, and a non-empty result neither starts nor ends
/// with white space.
pub proof fn trim_removes_only_surrounding_space(s: Seq<char>)
    ensures
        exists|a: int, b: int|
            0 <= a <= b <= s.len() && trim(s) == s.subrange(a, b) && (forall|k: int|
                0 <= k < a ==> is_space(#[trigger] s[k])) && (forall|k: int|
                b <= k < s.len() ==> is_space(#[trigger] s[k])),
        trim(s).len() > 0 ==> !is_space(trim(s)[0]) && !is_space(trim(s).last()),
{
    let a = lemma_trim_start_at(s);
    let t = s.skip(a);
    let b = lemma_trim_end_at(t);
    assert(trim(s) =~= s.subrange(a, a + b));
    assert forall|k: int| a + b <= k < s.len() implies is_space(#[trigger] s[k]) by {
        assert(s[k] == t[k - a]);
    }
    if trim(s).len() > 0 {
        assert(trim(s)[0] == t[0]);
    }
}

/// `s` without leading and trailing white space (see `trim`).
pub fn trim_str(s: &str) -> (r: String)
    ensures
        r@ == trim(s@),
{
    let cs = chars_of(s);
    let n = cs.len();
    let mut a: usize = 0;
    while a < n && is_space_exec(cs[a])
        invariant
            a <= n,
            n == cs@.len(),
            forall|k: int| 0 <= k < a ==> is_space(cs@[k]),
        decreases n - a,
    {
        a = a + 1;
    }
    let mut b: usize = n;
    while b > a && is_space_exec(cs[b - 1])
        invariant
            a <= b <= n,
            n == cs@.len(),
            forall|k: int| b <= k < n ==> is_space(cs@[k]),
        decreases b,
    {
        b = b - 1;
    }
    proof {
        lemma_trim_start(s@, a as int);
        let t = s@.skip(a as int);
        assert forall|k: int| (b - a) <= k < t.len() implies is_space(t[k]) by {
            assert(t[k] == cs@[k + a]);
        }
        if b > a {
            assert(t[b - a - 1] == cs@[b - 1]);
        }
        lemma_trim_end(t, b - a);
    }
    let mut r = String::new();
    for k in a..b
        invariant
            n == cs@.len(),
            cs@ == s@,
            b <= n,
            r@ == s@.subrange(a as int, k as int),
    {
        push_char(&mut r, cs[k]);
        assert(s@.subrange(a as int, k + 1) =~= s@.subrange(a as int, k as int).push(
            s@[k as int],
        ));
    }
    assert(s@.subrange(a as int, b as int) =~= s@.skip(a as int).take(b - a));
    r
}

/// Whether a line holds nothing but white space.
pub fn is_blank(line: &str) -> (r: bool)
    ensures
        r == (trim(line@).len() == 0),
{
    let t = trim_str(line);
    t.as_str().is_empty()
}

/// The stored address of the last download: the file's text without
/// surrounding white space, or nothing when that is empty.
pub fn parse_stored_url(content: &str) -> (r: Option<String>)
    ensures
        r matches Some(u) ==> u@ == trim(content@) && u@.len() > 0,
        r is None <==> trim(content@).len() == 0,
{
    let t = trim_str(content);
    if t.as_str().is_empty() {
        None
    } else {
        Some(t)
    }
}

/// Whether the bulk data must be downloaded: when no address is stored, or
/// the stored one differs from the current one.
pub fn needs_download(stored: &Option<String>, current: &str) -> (r: bool)
    ensures
        r == match stored {
            Some(saved) => saved@ != current@,
            None => true,
        },
{
    match stored {
        Some(saved) => compare_str(saved.as_str(), current) != 0,
        None => true,
    }
}

// ---------------------------------------------------------------------------
// Old downloads

/// Position of the newest file: the greatest modification time, the last
/// one among equal times (the file that a stable sort by time puts last).
pub open spec fn newest(times: Seq<u128>) -> int
    decreases times.len(),
{
    if times.len() <= 1 {
        0
    } else {
        let j = newest(times.drop_last());
        if times.last() >= times[j] {
            times.len() - 1
        } else {
            j
        }
    }
}

proof fn lemma_newest(times: Seq<u128>)
    requires
        times.len() > 0,
    ensures
        0 <= newest(times) < times.len(),
        forall|k: int| 0 <= k < times.len() ==> #[trigger] times[k] <= times[newest(times)],
        forall|k: int| newest(times) < k < times.len() ==> #[trigger] times[k] < times[newest(times)],
    decreases times.len(),
{
    if times.len() > 1 {
        let init = times.drop_last();
        lemma_newest(init);
        assert forall|k: int| 0 <= k < init.len() implies init[k] == times[k] by {}
    }
}

/// The positions of the files to delete, in ascending order: every file but
/// the newest.
pub open spec fn spec_stale_files(times: Seq<u128>) -> Seq<usize> {
    if times.len() == 0 {
        Seq::empty()
    } else {
        Seq::new(
            (times.len() - 1) as nat,
            |k: int|
                if k < newest(times) {
                    k as usize
                } else {
                    (k + 1) as usize
                },
        )
    }
}

/// Cleaning up deletes every old download exactly once and keeps one file,
/// one with the latest modification time.
pub proof fn stale_files_spare_the_newest(times: Seq<u128>)
    requires
        0 < times.len() <= usize::MAX,
    ensures
        0 <= newest(times) < times.len(),
        forall|k: int| 0 <= k < times.len() ==> #[trigger] times[k] <= times[newest(times)],
        !spec_stale_files(times).contains(newest(times) as usize),
        forall|k: int|
            0 <= k < times.len() && k != newest(times) ==> #[trigger] spec_stale_files(
                times,
            ).contains(k as usize),
        forall|i: int, j: int|
            0 <= i < j < spec_stale_files(times).len() ==> spec_stale_files(times)[i]
                < spec_stale_files(times)[j],
{
    lemma_newest(times);
    let r = spec_stale_files(times);
    let p = newest(times);
    assert forall|k: int| 0 <= k < times.len() && k != p implies #[trigger] r.contains(k as usize) by {
        if k < p {
            assert(r[k] == k as usize);
        } else {
            assert(r[k - 1] == k as usize);
        }
    }
    assert forall|i: int| 0 <= i < r.len() implies r[i] != p as usize by {}
    assert forall|i: int, j: int| 0 <= i < j < r.len() implies r[i] < r[j] by {}
}

/// The positions of the old downloads to delete, given each file's
/// modification time: all but the newest (see `spec_stale_files`).
pub fn stale_files(times: &Vec<u128>) -> (r: Vec<usize>)
    ensures
        r@ == spec_stale_files(times@),
{
    let n = times.len();
    let mut r: Vec<usize> = Vec::new();
    if n == 0 {
        return r;
    }
    let mut keep: usize = 0;
    for i in 1..n
        invariant
            n == times@.len(),
            n > 0,
            1 <= i <= n,
            keep == newest(times@.take(i as int)),
            keep < i,
    {
        proof {
            lemma_newest(times@.take(i as int));
            assert(times@.take(i + 1).drop_last() =~= times@.take(i as int));
            assert(times@.take(i as int)[keep as int] == times@[keep as int]);
        }
        if times[i] >= times[keep] {
            keep = i;
        }
    }
    assert(times@.take(n as int) =~= times@);
    for i in 0..n
        invariant
            n == times@.len(),
            keep == newest(times@),
            keep < n,
            r@.len() == if i <= keep {
                i as int
            } else {
                i - 1
            },
            forall|k: int|
                0 <= k < r@.len() ==> r@[k] == if k < keep {
                    k
                } else {
                    k + 1
                },
    {
        if i != keep {
            r.push(i);
        }
    }
    assert(r@ =~= spec_stale_files(times@));
    r
}

} // verus!
