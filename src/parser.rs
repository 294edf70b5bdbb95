use vstd::prelude::*;
use vstd::string::StrSliceExecFns;

use crate::format::{detect_format, format_from, is_white, is_white_char, Format};

verus! {

broadcast use vstd::string::group_string_axioms;

/// `s` without white space at either end.
pub open spec fn trim(s: Seq<char>) -> Seq<char>
    decreases s.len(),
{
    if s.len() > 0 && is_white(s[0]) {
        trim(s.drop_first())
    } else if s.len() > 0 && is_white(s.last()) {
        trim(s.drop_last())
    } else {
        s
    }
}

/// The pieces of `s` between occurrences of `sep`; `s` without `sep` is one piece.
pub open spec fn split(s: Seq<char>, sep: char) -> Seq<Seq<char>>
    decreases s.len(),
{
    if s.len() == 0 {
        seq![Seq::empty()]
    } else {
        let r = split(s.drop_last(), sep);
        if s.last() == sep {
            r.push(Seq::empty())
        } else {
            r.update(r.len() - 1, r.last().push(s.last()))
        }
    }
}

/// The lines of `s`: the pieces between line feeds, with no empty last
/// line after a final line feed.
pub open spec fn lines(s: Seq<char>) -> Seq<Seq<char>> {
    if s.len() == 0 {
        Seq::empty()
    } else if s.last() == '\n' {
        split(s.drop_last(), '\n')
    } else {
        split(s, '\n')
    }
}

/// The characters of `s`, one by one.
pub fn chars_of(s: &str) -> (r: Vec<char>)
    ensures
        r@ == s@,
{
    let mut out: Vec<char> = Vec::new();
    for c in it: s.chars()
        invariant
            it.seq() == s@,
            out@ == it.seq().take(it.index() as int),
    {
        assert(it.seq().take(it.index() as int + 1) == out@.push(c));
        out.push(c);
    }
    assert(s@.take(s@.len() as int) == s@);
    out
}

proof fn lemma_trim_sub(s: Seq<char>, a: int, b: int)
    requires
        0 <= a < b <= s.len(),
    ensures
        is_white(s[a]) ==> trim(s.subrange(a, b)) == trim(s.subrange(a + 1, b)),
        !is_white(s[a]) && is_white(s[b - 1]) ==> trim(s.subrange(a, b)) == trim(s.subrange(a, b - 1)),
{
    assert(s.subrange(a, b).drop_first() == s.subrange(a + 1, b));
    assert(s.subrange(a, b).drop_last() == s.subrange(a, b - 1));
}

/// The bounds of `cs[a..b]` with white space taken off both ends.
pub fn trim_bounds(cs: &Vec<char>, a: usize, b: usize) -> (r: (usize, usize))
    requires
        a <= b <= cs@.len(),
    ensures
        a <= r.0 <= r.1 <= b,
        cs@.subrange(r.0 as int, r.1 as int) == trim(cs@.subrange(a as int, b as int)),
{
    let mut lo = a;
    let mut hi = b;
    while lo < hi && is_white_char(cs[lo])
        invariant
            a <= lo <= hi,
            hi == b,
            b <= cs@.len(),
            trim(cs@.subrange(lo as int, hi as int)) == trim(cs@.subrange(a as int, b as int)),
        decreases hi - lo,
    {
        proof { lemma_trim_sub(cs@, lo as int, hi as int); }
        lo = lo + 1;
    }
    while lo < hi && is_white_char(cs[hi - 1])
        invariant
            a <= lo <= hi <= b,
            b <= cs@.len(),
            lo < hi ==> !is_white(cs@[lo as int]),
            trim(cs@.subrange(lo as int, hi as int)) == trim(cs@.subrange(a as int, b as int)),
        decreases hi - lo,
    {
        proof { lemma_trim_sub(cs@, lo as int, hi as int); }
        hi = hi - 1;
    }
    proof {
        let t = cs@.subrange(lo as int, hi as int);
        if t.len() > 0 {
            assert(t[0] == cs@[lo as int]);
            assert(t.last() == cs@[hi - 1]);
        }
    }
    (lo, hi)
}

/// Where `sep` occurs in `cs[a..b]`, as the bounds of the pieces between.
pub fn split_bounds(cs: &Vec<char>, a: usize, b: usize, sep: char) -> (r: Vec<(usize, usize)>)
    requires
        a <= b <= cs@.len(),
    ensures
        r@.len() == split(cs@.subrange(a as int, b as int), sep).len(),
        forall|k: int| 0 <= k < r@.len() ==> a <= (#[trigger] r@[k]).0 <= r@[k].1 <= b
            && cs@.subrange(r@[k].0 as int, r@[k].1 as int) == split(cs@.subrange(a as int, b as int), sep)[k],
{
    let mut out: Vec<(usize, usize)> = Vec::new();
    let mut start = a;
    let mut i = a;
    while i < b
        invariant
            a <= start <= i <= b,
            b <= cs@.len(),
            out@.len() + 1 == split(cs@.subrange(a as int, i as int), sep).len(),
            forall|k: int| 0 <= k < out@.len() ==> a <= (#[trigger] out@[k]).0 <= out@[k].1 <= b
                && cs@.subrange(out@[k].0 as int, out@[k].1 as int) == split(cs@.subrange(a as int, i as int), sep)[k],
            cs@.subrange(start as int, i as int) == split(cs@.subrange(a as int, i as int), sep).last(),
        decreases b - i,
    {
        let ghost prev = split(cs@.subrange(a as int, i as int), sep);
        assert(cs@.subrange(a as int, i + 1).drop_last() == cs@.subrange(a as int, i as int));
        assert(cs@.subrange(a as int, i + 1).last() == cs@[i as int]);
        if cs[i] == sep {
            out.push((start, i));
            start = i + 1;
            assert(cs@.subrange(start as int, i + 1) =~= Seq::<char>::empty());
        } else {
            assert(cs@.subrange(start as int, i + 1) =~= cs@.subrange(start as int, i as int).push(cs@[i as int]));
        }
        i = i + 1;
    }
    out.push((start, b));
    out
}

/// What any parser produces.
#[derive(Debug)]
pub enum ParsedData {
    /// A flat key-value config (keys under a section become `section.key`),
    /// each key once, in order of first appearance.
    Config(Vec<(String, String)>),
    /// A list of JSON-like objects, each as its key-value pairs.
    JsonRecords(Vec<Vec<(String, String)>>),
    /// Tabular CSV data: header row and data rows.
    CsvTable { headers: Vec<String>, rows: Vec<Vec<String>> },
}

pub open spec fn pairs_view(v: Seq<(String, String)>) -> Seq<(Seq<char>, Seq<char>)> {
    v.map_values(|p: (String, String)| (p.0@, p.1@))
}

/// Set `k` to `v`: the first pair with key `k` takes the new value, or the
/// pair is appended.
pub open spec fn upsert(m: Seq<(Seq<char>, Seq<char>)>, k: Seq<char>, v: Seq<char>) -> Seq<(Seq<char>, Seq<char>)>
    decreases m.len(),
{
    if m.len() == 0 {
        seq![(k, v)]
    } else if m[0].0 == k {
        m.update(0, (k, v))
    } else {
        seq![m[0]] + upsert(m.drop_first(), k, v)
    }
}

/// Index of the first `c` in `t` at or after `i`.
pub open spec fn find_from(t: Seq<char>, c: char, i: nat) -> Option<nat>
    decreases t.len() - i,
{
    if i >= t.len() {
        None
    } else if t[i as int] == c {
        Some(i)
    } else {
        find_from(t, c, i + 1)
    }
}

/// The section and pairs after one trimmed line of a config file: blank
/// lines and comments (`#`, `;`) are skipped, `[name]` opens a section, and
/// `key = value` sets `section.key` (or `key` outside any section).
pub open spec fn config_step(
    state: (Seq<char>, Seq<(Seq<char>, Seq<char>)>),
    t: Seq<char>,
) -> (Seq<char>, Seq<(Seq<char>, Seq<char>)>) {
    let (section, pairs) = state;
    if t.len() == 0 || t[0] == '#' || t[0] == ';' {
        state
    } else if t[0] == '[' && t.last() == ']' {
        (trim(t.subrange(1, t.len() - 1)), pairs)
    } else {
        match find_from(t, '=', 0) {
            Some(e) => {
                let key = trim(t.subrange(0, e as int));
                let value = trim(t.subrange(e + 1 as int, t.len() as int));
                let full = if section.len() == 0 { key } else { section + "."@ + key };
                (section, upsert(pairs, full, value))
            },
            None => state,
        }
    }
}

pub open spec fn config_fold(ls: Seq<Seq<char>>) -> (Seq<char>, Seq<(Seq<char>, Seq<char>)>)
    decreases ls.len(),
{
    if ls.len() == 0 {
        (Seq::empty(), Seq::empty())
    } else {
        config_step(config_fold(ls.drop_last()), trim(ls.last()))
    }
}

/// The pairs of a config file.
pub open spec fn config_pairs(s: Seq<char>) -> Seq<(Seq<char>, Seq<char>)> {
    config_fold(lines(s)).1
}

/// The bounds of the lines of `cs`.
fn line_bounds(cs: &Vec<char>) -> (r: Vec<(usize, usize)>)
    ensures
        r@.len() == lines(cs@).len(),
        forall|k: int| 0 <= k < r@.len() ==> (#[trigger] r@[k]).0 <= r@[k].1 <= cs@.len()
            && cs@.subrange(r@[k].0 as int, r@[k].1 as int) == lines(cs@)[k],
{
    let n = cs.len();
    if n == 0 {
        return Vec::new();
    }
    let end = if cs[n - 1] == '\n' { n - 1 } else { n };
    assert(cs@.subrange(0, n as int) == cs@);
    assert(cs@.subrange(0, n - 1) == cs@.drop_last());
    split_bounds(cs, 0, end, '\n')
}

/// Set `key` to `value` in `pairs`.
fn upsert_pair(pairs: &mut Vec<(String, String)>, key: String, value: String)
    ensures
        pairs_view(final(pairs)@) == upsert(pairs_view(old(pairs)@), key@, value@),
{
    let mut i: usize = 0;
    proof {
        let m = pairs_view(pairs@);
        assert(m.skip(0) == m);
        assert(m.take(0) + upsert(m, key@, value@) =~= upsert(m, key@, value@));
    }
    while i < pairs.len()
        invariant
            i <= pairs@.len(),
            pairs@ == old(pairs)@,
            forall|j: int| 0 <= j < i ==> (#[trigger] pairs@[j]).0@ != key@,
            upsert(pairs_view(pairs@), key@, value@) == pairs_view(pairs@).take(i as int) + upsert(
                pairs_view(pairs@).skip(i as int),
                key@,
                value@,
            ),
        decreases pairs@.len() - i,
    {
        let ghost m = pairs_view(pairs@);
        assert(m.skip(i as int)[0] == m[i as int]);
        if pairs[i].0 == key {
            let ghost before = pairs@;
            pairs.set(i, (key, value));
            proof {
                assert(m.skip(i as int).update(0, (key@, value@)) =~= m.skip(i as int).update(0, (key@, value@)));
                assert(pairs_view(pairs@) =~= m.take(i as int) + m.skip(i as int).update(0, (key@, value@)));
            }
            return;
        }
        assert(m.skip(i as int).drop_first() == m.skip(i + 1));
        assert(m.take(i as int) + seq![m[i as int]] == m.take(i + 1));
        assert(m.take(i as int) + (seq![m[i as int]] + upsert(m.skip(i + 1), key@, value@))
            =~= m.take(i + 1) + upsert(m.skip(i + 1), key@, value@));
        i = i + 1;
    }
    let ghost m = pairs_view(pairs@);
    assert(m.skip(i as int) =~= Seq::<(Seq<char>, Seq<char>)>::empty());
    assert(m.take(i as int) == m);
    pairs.push((key, value));
    assert(pairs_view(pairs@) =~= m + seq![(key@, value@)]);
}

/// Parse an INI-style key-value config. Keys under a `[section]` header are
/// stored as `section.key`; a later value for the same key replaces the
/// earlier one.
pub fn parse_key_value_config(content: &str) -> (r: ParsedData)
    ensures
        r matches ParsedData::Config(v) && pairs_view(v@) == config_pairs(content@),
{
    let cs = chars_of(content);
    let bounds = line_bounds(&cs);
    let ghost ls = lines(content@);
    let mut section = String::new();
    let mut pairs: Vec<(String, String)> = Vec::new();
    let mut k: usize = 0;
    proof { reveal_strlit("."); }
    while k < bounds.len()
        invariant
            cs@ == content@,
            ls == lines(content@),
            bounds@.len() == ls.len(),
            forall|j: int| 0 <= j < bounds@.len() ==> (#[trigger] bounds@[j]).0 <= bounds@[j].1 <= cs@.len()
                && cs@.subrange(bounds@[j].0 as int, bounds@[j].1 as int) == ls[j],
            k <= bounds@.len(),
            (section@, pairs_view(pairs@)) == config_fold(ls.take(k as int)),
        decreases bounds@.len() - k,
    {
        let (a, b) = bounds[k];
        let (lo, hi) = trim_bounds(&cs, a, b);
        let ghost t = cs@.subrange(lo as int, hi as int);
        assert(ls.take(k + 1).drop_last() == ls.take(k as int));
        assert(ls.take(k + 1).last() == ls[k as int]);
        assert(t == trim(ls[k as int]));
        if lo == hi || cs[lo] == '#' || cs[lo] == ';' {
        } else if cs[lo] == '[' && cs[hi - 1] == ']' {
            let (s0, s1) = trim_bounds(&cs, lo + 1, hi - 1);
            assert(t.subrange(1, t.len() - 1) == cs@.subrange(lo + 1, hi - 1));
            section = content.substring_char(s0, s1).to_owned();
        } else {
            let mut e = lo;
            while e < hi && cs[e] != '='
                invariant
                    lo <= e <= hi,
                    hi <= cs@.len(),
                    t == cs@.subrange(lo as int, hi as int),
                    find_from(t, '=', 0) == find_from(t, '=', (e - lo) as nat),
                decreases hi - e,
            {
                e = e + 1;
            }
            if e < hi {
                let (k0, k1) = trim_bounds(&cs, lo, e);
                let (v0, v1) = trim_bounds(&cs, e + 1, hi);
                assert(t.subrange(0, e - lo) == cs@.subrange(lo as int, e as int));
                assert(t.subrange(e - lo + 1, t.len() as int) == cs@.subrange(e + 1, hi as int));
                let key = content.substring_char(k0, k1).to_owned();
                let value = content.substring_char(v0, v1).to_owned();
                let full = if section.as_str().is_empty() {
                    key
                } else {
                    let mut f = section.clone();
                    f.append(".");
                    f.append(key.as_str());
                    f
                };
                upsert_pair(&mut pairs, full, value);
            }
        }
        k = k + 1;
    }
    assert(ls.take(k as int) == ls);
    ParsedData::Config(pairs)
}

pub open spec fn strings_view(v: Seq<String>) -> Seq<Seq<char>> {
    v.map_values(|x: String| x@)
}

/// The comma-separated fields of `t`, each trimmed.
pub open spec fn fields(t: Seq<char>) -> Seq<Seq<char>> {
    split(t, ',').map_values(|f: Seq<char>| trim(f))
}

/// The trimmed lines of `ls` that are not blank.
pub open spec fn nonblank(ls: Seq<Seq<char>>) -> Seq<Seq<char>>
    decreases ls.len(),
{
    if ls.len() == 0 {
        Seq::empty()
    } else if trim(ls.last()).len() > 0 {
        nonblank(ls.drop_last()).push(trim(ls.last()))
    } else {
        nonblank(ls.drop_last())
    }
}

/// The non-blank lines of a CSV text.
pub open spec fn csv_lines(s: Seq<char>) -> Seq<Seq<char>> {
    nonblank(lines(s))
}

/// Every data row has as many fields as the header row.
pub open spec fn csv_rows_consistent(s: Seq<char>) -> bool {
    let ls = csv_lines(s);
    forall|i: int| 1 <= i < ls.len() ==> #[trigger] split(ls[i], ',').len() == split(ls[0], ',').len()
}

/// The trimmed comma-separated fields of `cs[lo..hi]`, which is `content[lo..hi]`.
fn fields_of(content: &str, cs: &Vec<char>, lo: usize, hi: usize) -> (r: Vec<String>)
    requires
        cs@ == content@,
        lo <= hi <= cs@.len(),
    ensures
        strings_view(r@) == fields(cs@.subrange(lo as int, hi as int)),
{
    let pieces = split_bounds(cs, lo, hi, ',');
    let ghost sp = split(cs@.subrange(lo as int, hi as int), ',');
    let mut out: Vec<String> = Vec::new();
    let mut k: usize = 0;
    while k < pieces.len()
        invariant
            cs@ == content@,
            pieces@.len() == sp.len(),
            sp == split(cs@.subrange(lo as int, hi as int), ','),
            forall|j: int| 0 <= j < pieces@.len() ==> lo <= (#[trigger] pieces@[j]).0 <= pieces@[j].1 <= hi
                && cs@.subrange(pieces@[j].0 as int, pieces@[j].1 as int) == sp[j],
            hi <= cs@.len(),
            k <= pieces@.len(),
            strings_view(out@) == sp.take(k as int).map_values(|f: Seq<char>| trim(f)),
        decreases pieces@.len() - k,
    {
        let (a, b) = pieces[k];
        let (t0, t1) = trim_bounds(cs, a, b);
        let piece = content.substring_char(t0, t1).to_owned();
        assert(piece@ == trim(sp[k as int]));
        let ghost before = out@;
        out.push(piece);
        assert(strings_view(out@) =~= strings_view(before).push(piece@));
        assert(sp.take(k + 1).map_values(|f: Seq<char>| trim(f)) =~= sp.take(k as int).map_values(
            |f: Seq<char>| trim(f),
        ).push(trim(sp[k as int])));
        k = k + 1;
    }
    assert(sp.take(k as int) == sp);
    out
}

/// Parse CSV text: the first non-blank line gives the headers, every later
/// non-blank line a row; fields are split at commas and trimmed. Text with
/// no non-blank line is an error.
pub fn parse_csv(content: &str) -> (r: Result<ParsedData, String>)
    requires
        csv_rows_consistent(content@),
    ensures
        csv_lines(content@).len() == 0 <==> r is Err,
        r matches Ok(ParsedData::CsvTable { headers, rows }) ==> {
            let ls = csv_lines(content@);
            &&& strings_view(headers@) == fields(ls[0])
            &&& rows@.len() == ls.len() - 1
            &&& forall|i: int| 0 <= i < rows@.len() ==> strings_view((#[trigger] rows@[i])@) == fields(ls[i + 1])
        },
        r matches Ok(d) ==> d is CsvTable,
{
    let cs = chars_of(content);
    let bounds = line_bounds(&cs);
    let ghost ls = lines(content@);
    let mut headers: Vec<String> = Vec::new();
    let mut rows: Vec<Vec<String>> = Vec::new();
    let mut seen_header = false;
    let mut k: usize = 0;
    while k < bounds.len()
        invariant
            cs@ == content@,
            ls == lines(content@),
            bounds@.len() == ls.len(),
            forall|j: int| 0 <= j < bounds@.len() ==> (#[trigger] bounds@[j]).0 <= bounds@[j].1 <= cs@.len()
                && cs@.subrange(bounds@[j].0 as int, bounds@[j].1 as int) == ls[j],
            k <= bounds@.len(),
            seen_header == (nonblank(ls.take(k as int)).len() > 0),
            seen_header ==> strings_view(headers@) == fields(nonblank(ls.take(k as int))[0]),
            seen_header ==> rows@.len() == nonblank(ls.take(k as int)).len() - 1,
            forall|i: int| 0 <= i < rows@.len() ==> strings_view((#[trigger] rows@[i])@) == fields(
                nonblank(ls.take(k as int))[i + 1],
            ),
            !seen_header ==> rows@.len() == 0,
        decreases bounds@.len() - k,
    {
        let (a, b) = bounds[k];
        let (lo, hi) = trim_bounds(&cs, a, b);
        let ghost before = nonblank(ls.take(k as int));
        assert(ls.take(k + 1).drop_last() == ls.take(k as int));
        assert(ls.take(k + 1).last() == ls[k as int]);
        if lo < hi {
            let f = fields_of(content, &cs, lo, hi);
            if !seen_header {
                headers = f;
                seen_header = true;
            } else {
                let ghost after = nonblank(ls.take(k + 1));
                assert(after == before.push(trim(ls[k as int])));
                assert forall|i: int| 0 <= i < rows@.len() implies #[trigger] after[i + 1] == before[i + 1] by {}
                assert(after[0] == before[0]);
                rows.push(f);
            }
        }
        k = k + 1;
    }
    assert(ls.take(k as int) == ls);
    if !seen_header {
        let mut msg = String::new();
        msg.append("Empty CSV content");
        return Err(msg);
    }
    Ok(ParsedData::CsvTable { headers, rows })
}

/// Relies on `String::push`: the character is appended to the string.
#[verifier::external_body]
fn push_char(s: &mut String, c: char)
    ensures
        final(s)@ == old(s)@.push(c),
{
    s.push(c)
}

/// One character of the object splitter: braces count the nesting depth
/// (clamped to the range of `i64`) and are kept; a closing brace back at
/// depth zero completes an object; commas at depth zero are dropped.
pub open spec fn split_step(
    state: (i64, Seq<char>, Seq<Seq<char>>),
    c: char,
) -> (i64, Seq<char>, Seq<Seq<char>>) {
    let (depth, current, objects) = state;
    if c == '{' {
        let d = if depth < i64::MAX { (depth + 1) as i64 } else { depth };
        (d, current.push(c), objects)
    } else if c == '}' {
        let d = if depth > i64::MIN { (depth - 1) as i64 } else { depth };
        if d == 0 {
            (d, Seq::empty(), objects.push(current.push(c)))
        } else {
            (d, current.push(c), objects)
        }
    } else if c == ',' && depth == 0 {
        state
    } else {
        (depth, current.push(c), objects)
    }
}

pub open spec fn split_fold(s: Seq<char>) -> (i64, Seq<char>, Seq<Seq<char>>)
    decreases s.len(),
{
    if s.len() == 0 {
        (0, Seq::empty(), Seq::empty())
    } else {
        split_step(split_fold(s.drop_last()), s.last())
    }
}

/// The object texts of the inside of a JSON array; trailing text that is
/// not blank counts as one more.
pub open spec fn objects_of(s: Seq<char>) -> Seq<Seq<char>> {
    let (_, current, objects) = split_fold(s);
    if trim(current).len() > 0 {
        objects.push(current)
    } else {
        objects
    }
}

/// Split the inside of a JSON array into the texts of its objects.
pub fn split_objects(inner: &str) -> (r: Vec<String>)
    ensures
        strings_view(r@) == objects_of(inner@),
{
    let cs = chars_of(inner);
    let mut objects: Vec<String> = Vec::new();
    let mut depth: i64 = 0;
    let mut current = String::new();
    let mut i: usize = 0;
    while i < cs.len()
        invariant
            cs@ == inner@,
            i <= cs@.len(),
            (depth, current@, strings_view(objects@)) == split_fold(cs@.take(i as int)),
        decreases cs@.len() - i,
    {
        let c = cs[i];
        assert(cs@.take(i + 1).drop_last() == cs@.take(i as int));
        assert(cs@.take(i + 1).last() == c);
        let ghost before = strings_view(objects@);
        if c == '{' {
            if depth < i64::MAX {
                depth = depth + 1;
            }
            push_char(&mut current, c);
        } else if c == '}' {
            if depth > i64::MIN {
                depth = depth - 1;
            }
            push_char(&mut current, c);
            if depth == 0 {
                let done = current;
                current = String::new();
                objects.push(done);
                assert(strings_view(objects@) =~= before.push(done@));
            }
        } else if c == ',' && depth == 0 {
        } else {
            push_char(&mut current, c);
        }
        i = i + 1;
    }
    assert(cs@.take(i as int) == cs@);
    let (t0, t1) = {
        let ccs = chars_of(current.as_str());
        trim_bounds(&ccs, 0, ccs.len())
    };
    proof {
        assert(current@.subrange(0, current@.len() as int) == current@);
    }
    if t0 < t1 {
        let ghost before = strings_view(objects@);
        objects.push(current);
        assert(strings_view(objects@) =~= before.push(split_fold(inner@).1));
    }
    objects
}

/// `s` without any `x` or `y` at either end.
pub open spec fn strip(s: Seq<char>, x: char, y: char) -> Seq<char>
    decreases s.len(),
{
    if s.len() > 0 && (s[0] == x || s[0] == y) {
        strip(s.drop_first(), x, y)
    } else if s.len() > 0 && (s.last() == x || s.last() == y) {
        strip(s.drop_last(), x, y)
    } else {
        s
    }
}

/// The bounds of `cs[a..b]` without any `x` or `y` at either end.
fn strip_bounds(cs: &Vec<char>, a: usize, b: usize, x: char, y: char) -> (r: (usize, usize))
    requires
        a <= b <= cs@.len(),
    ensures
        a <= r.0 <= r.1 <= b,
        cs@.subrange(r.0 as int, r.1 as int) == strip(cs@.subrange(a as int, b as int), x, y),
{
    let mut lo = a;
    let mut hi = b;
    while lo < hi && (cs[lo] == x || cs[lo] == y)
        invariant
            a <= lo <= hi,
            hi == b,
            b <= cs@.len(),
            strip(cs@.subrange(lo as int, hi as int), x, y) == strip(cs@.subrange(a as int, b as int), x, y),
        decreases hi - lo,
    {
        assert(cs@.subrange(lo as int, hi as int).drop_first() == cs@.subrange(lo + 1, hi as int));
        lo = lo + 1;
    }
    while lo < hi && (cs[hi - 1] == x || cs[hi - 1] == y)
        invariant
            a <= lo <= hi <= b,
            b <= cs@.len(),
            lo < hi ==> !(cs@[lo as int] == x || cs@[lo as int] == y),
            strip(cs@.subrange(lo as int, hi as int), x, y) == strip(cs@.subrange(a as int, b as int), x, y),
        decreases hi - lo,
    {
        assert(cs@.subrange(lo as int, hi as int).drop_last() == cs@.subrange(lo as int, hi - 1));
        assert(cs@.subrange(lo as int, hi as int)[0] == cs@[lo as int]);
        hi = hi - 1;
    }
    proof {
        let t = cs@.subrange(lo as int, hi as int);
        if t.len() > 0 {
            assert(t[0] == cs@[lo as int]);
            assert(t.last() == cs@[hi - 1]);
        }
    }
    (lo, hi)
}

pub type Pairs = Seq<(Seq<char>, Seq<char>)>;

/// The pairs of an object after one more comma-separated piece: a blank
/// piece is skipped, one without `:` is an error, and `"key": "value"`
/// sets the key, quotes and white space taken off both parts.
pub open spec fn pair_step(state: Result<Pairs, Seq<char>>, piece: Seq<char>) -> Result<Pairs, Seq<char>> {
    match state {
        Err(e) => Err(e),
        Ok(m) => {
            let p = trim(piece);
            if p.len() == 0 {
                Ok(m)
            } else {
                match find_from(p, ':', 0) {
                    None => Err("Invalid JSON pair: "@ + p),
                    Some(c) => Ok(
                        upsert(
                            m,
                            strip(trim(p.subrange(0, c as int)), '"', '"'),
                            strip(trim(p.subrange(c + 1 as int, p.len() as int)), '"', '"'),
                        ),
                    ),
                }
            }
        },
    }
}

pub open spec fn pairs_fold(pieces: Seq<Seq<char>>) -> Result<Pairs, Seq<char>>
    decreases pieces.len(),
{
    if pieces.len() == 0 {
        Ok(Seq::empty())
    } else {
        pair_step(pairs_fold(pieces.drop_last()), pieces.last())
    }
}

/// The pairs of one object text, braces and white space taken off its ends.
pub open spec fn object_pairs(chunk: Seq<char>) -> Result<Pairs, Seq<char>> {
    pairs_fold(split(strip(trim(chunk), '{', '}'), ','))
}

pub open spec fn records_step(state: Result<Seq<Pairs>, Seq<char>>, chunk: Seq<char>) -> Result<Seq<Pairs>, Seq<char>> {
    match state {
        Err(e) => Err(e),
        Ok(rs) => match object_pairs(chunk) {
            Err(e) => Err(e),
            Ok(m) => Ok(if m.len() > 0 { rs.push(m) } else { rs }),
        },
    }
}

pub open spec fn records_fold(chunks: Seq<Seq<char>>) -> Result<Seq<Pairs>, Seq<char>>
    decreases chunks.len(),
{
    if chunks.len() == 0 {
        Ok(Seq::empty())
    } else {
        records_step(records_fold(chunks.drop_last()), chunks.last())
    }
}

/// What the JSON parser makes of `s`: the objects of a `[...]` array, or an
/// error message.
pub open spec fn json_result(s: Seq<char>) -> Result<Seq<Pairs>, Seq<char>> {
    let t = trim(s);
    if !(t.len() > 0 && t[0] == '[' && t.last() == ']') {
        Err("Not a JSON array"@)
    } else {
        match records_fold(objects_of(t.subrange(1, t.len() - 1))) {
            Err(e) => Err(e),
            Ok(rs) => if rs.len() == 0 {
                Err("JSON array contained no objects"@)
            } else {
                Ok(rs)
            },
        }
    }
}

pub open spec fn records_view(v: Seq<Vec<(String, String)>>) -> Seq<Pairs> {
    v.map_values(|m: Vec<(String, String)>| pairs_view(m@))
}

proof fn lemma_pairs_error_sticks(sp: Seq<Seq<char>>, j: int, e: Seq<char>)
    requires
        0 <= j <= sp.len(),
        pairs_fold(sp.take(j)) == Err::<Pairs, Seq<char>>(e),
    ensures
        pairs_fold(sp) == Err::<Pairs, Seq<char>>(e),
    decreases sp.len() - j,
{
    if j < sp.len() {
        assert(sp.take(j + 1).drop_last() == sp.take(j));
        lemma_pairs_error_sticks(sp, j + 1, e);
    } else {
        assert(sp.take(j) == sp);
    }
}

proof fn lemma_records_error_sticks(ch: Seq<Seq<char>>, j: int, e: Seq<char>)
    requires
        0 <= j <= ch.len(),
        records_fold(ch.take(j)) == Err::<Seq<Pairs>, Seq<char>>(e),
    ensures
        records_fold(ch) == Err::<Seq<Pairs>, Seq<char>>(e),
    decreases ch.len() - j,
{
    if j < ch.len() {
        assert(ch.take(j + 1).drop_last() == ch.take(j));
        lemma_records_error_sticks(ch, j + 1, e);
    } else {
        assert(ch.take(j) == ch);
    }
}

/// The pairs of one object text, or the message for its first bad pair.
fn parse_object(chunk: &String) -> (r: Result<Vec<(String, String)>, String>)
    ensures
        match object_pairs(chunk@) {
            Ok(m) => r matches Ok(v) && pairs_view(v@) == m,
            Err(e) => r matches Err(msg) && msg@ == e,
        },
{
    let text = chunk.as_str();
    let cs = chars_of(text);
    let (a, b) = trim_bounds(&cs, 0, cs.len());
    assert(cs@.subrange(0, cs@.len() as int) == cs@);
    let (a2, b2) = strip_bounds(&cs, a, b, '{', '}');
    let pieces = split_bounds(&cs, a2, b2, ',');
    let ghost sp = split(cs@.subrange(a2 as int, b2 as int), ',');
    let mut map: Vec<(String, String)> = Vec::new();
    let mut k: usize = 0;
    proof {
        reveal_strlit("Invalid JSON pair: ");
        assert(sp.take(0) =~= Seq::<Seq<char>>::empty());
        assert(pairs_view(map@) =~= Seq::<(Seq<char>, Seq<char>)>::empty());
    }
    while k < pieces.len()
        invariant
            cs@ == text@,
            text@ == chunk@,
            sp == split(cs@.subrange(a2 as int, b2 as int), ','),
            sp == split(strip(trim(chunk@), '{', '}'), ','),
            pieces@.len() == sp.len(),
            forall|j: int| 0 <= j < pieces@.len() ==> (#[trigger] pieces@[j]).0 <= pieces@[j].1 <= cs@.len()
                && cs@.subrange(pieces@[j].0 as int, pieces@[j].1 as int) == sp[j],
            k <= pieces@.len(),
            pairs_fold(sp.take(k as int)) == Ok::<Pairs, Seq<char>>(pairs_view(map@)),
        decreases pieces@.len() - k,
    {
        let (p0, p1) = pieces[k];
        let (lo, hi) = trim_bounds(&cs, p0, p1);
        let ghost p = cs@.subrange(lo as int, hi as int);
        assert(sp.take(k + 1).drop_last() == sp.take(k as int));
        assert(sp.take(k + 1).last() == sp[k as int]);
        if lo < hi {
            let mut c = lo;
            while c < hi && cs[c] != ':'
                invariant
                    lo <= c <= hi,
                    hi <= cs@.len(),
                    p == cs@.subrange(lo as int, hi as int),
                    find_from(p, ':', 0) == find_from(p, ':', (c - lo) as nat),
                decreases hi - c,
            {
                c = c + 1;
            }
            if c == hi {
                let mut msg = String::new();
                msg.append("Invalid JSON pair: ");
                msg.append(text.substring_char(lo, hi));
                proof {
                    assert(pairs_fold(sp.take(k + 1)) == Err::<Pairs, Seq<char>>(msg@));
                    lemma_pairs_error_sticks(sp, k + 1, msg@);
                }
                return Err(msg);
            }
            let (k0, k1) = trim_bounds(&cs, lo, c);
            let (k2, k3) = strip_bounds(&cs, k0, k1, '"', '"');
            let (v0, v1) = trim_bounds(&cs, c + 1, hi);
            let (v2, v3) = strip_bounds(&cs, v0, v1, '"', '"');
            assert(p.subrange(0, c - lo) == cs@.subrange(lo as int, c as int));
            assert(p.subrange(c - lo + 1, p.len() as int) == cs@.subrange(c + 1, hi as int));
            let key = text.substring_char(k2, k3).to_owned();
            let value = text.substring_char(v2, v3).to_owned();
            upsert_pair(&mut map, key, value);
        }
        k = k + 1;
    }
    assert(sp.take(k as int) == sp);
    Ok(map)
}

/// Parse a JSON array of flat objects, `[{"key": "value", ...}, ...]`, in
/// the simplified form this parser knows: object texts are found by brace
/// depth, pairs by commas and the first colon.
#[verifier::rlimit(60)]
pub fn parse_json(content: &str) -> (r: Result<ParsedData, String>)
    ensures
        match json_result(content@) {
            Ok(rs) => r matches Ok(ParsedData::JsonRecords(v)) && records_view(v@) == rs,
            Err(e) => r matches Err(msg) && msg@ == e,
        },
{
    let cs = chars_of(content);
    let (lo, hi) = trim_bounds(&cs, 0, cs.len());
    assert(cs@.subrange(0, cs@.len() as int) == cs@);
    let ghost t = cs@.subrange(lo as int, hi as int);
    proof {
        reveal_strlit("Not a JSON array");
        reveal_strlit("JSON array contained no objects");
        assert(t == trim(content@));
        if lo < hi {
            assert(t[0] == cs@[lo as int]);
            assert(t.last() == cs@[hi - 1]);
        }
    }
    if !(lo < hi && cs[lo] == '[' && cs[hi - 1] == ']') {
        let mut msg = String::new();
        msg.append("Not a JSON array");
        return Err(msg);
    }
    assert(t.subrange(1, t.len() - 1) == cs@.subrange(lo + 1, hi - 1));
    let inner = content.substring_char(lo + 1, hi - 1);
    let chunks = split_objects(inner);
    let ghost ch = objects_of(inner@);
    let mut records: Vec<Vec<(String, String)>> = Vec::new();
    let mut k: usize = 0;
    assert(ch.take(0) =~= Seq::<Seq<char>>::empty());
    assert(records_view(records@) =~= Seq::<Pairs>::empty());
    while k < chunks.len()
        invariant
            t == trim(content@),
            t.len() > 0 && t[0] == '[' && t.last() == ']',
            ch == objects_of(t.subrange(1, t.len() - 1)),
            strings_view(chunks@) == ch,
            k <= chunks@.len(),
            records_fold(ch.take(k as int)) == Ok::<Seq<Pairs>, Seq<char>>(records_view(records@)),
        decreases chunks@.len() - k,
    {
        assert(ch.take(k + 1).drop_last() == ch.take(k as int));
        assert(ch.take(k + 1).last() == ch[k as int]);
        assert(chunks@[k as int]@ == ch[k as int]);
        match parse_object(&chunks[k]) {
            Ok(map) => {
                if map.len() > 0 {
                    let ghost before = records_view(records@);
                    records.push(map);
                    assert(records_view(records@) =~= before.push(pairs_view(map@)));
                }
            },
            Err(msg) => {
                proof {
                    assert(object_pairs(ch[k as int]) == Err::<Pairs, Seq<char>>(msg@));
                    assert(records_fold(ch.take(k + 1)) == records_step(records_fold(ch.take(k as int)), ch[k as int]));
                    lemma_records_error_sticks(ch, k + 1, msg@);
                    assert(t.len() > 0 && t[0] == '[' && t.last() == ']');
                    assert(records_fold(objects_of(t.subrange(1, t.len() - 1))) == Err::<Seq<Pairs>, Seq<char>>(msg@));
                    assert(json_result(content@) == Err::<Seq<Pairs>, Seq<char>>(msg@));
                }
                return Err(msg);
            },
        }
        k = k + 1;
    }
    assert(ch.take(k as int) == ch);
    assert(records_fold(objects_of(t.subrange(1, t.len() - 1))) == Ok::<Seq<Pairs>, Seq<char>>(
        records_view(records@),
    ));
    if records.len() == 0 {
        let mut msg = String::new();
        msg.append("JSON array contained no objects");
        return Err(msg);
    }
    Ok(ParsedData::JsonRecords(records))
}

/// Whether `content` has a non-blank line and every data row has as many
/// fields as the header.
pub fn csv_acceptable(content: &str) -> (r: bool)
    ensures
        r == csv_ok(content@),
{
    let cs = chars_of(content);
    let bounds = line_bounds(&cs);
    let ghost ls = lines(content@);
    let mut width: usize = 0;
    let mut seen_header = false;
    let mut consistent = true;
    let mut k: usize = 0;
    while k < bounds.len()
        invariant
            cs@ == content@,
            ls == lines(content@),
            bounds@.len() == ls.len(),
            forall|j: int| 0 <= j < bounds@.len() ==> (#[trigger] bounds@[j]).0 <= bounds@[j].1 <= cs@.len()
                && cs@.subrange(bounds@[j].0 as int, bounds@[j].1 as int) == ls[j],
            k <= bounds@.len(),
            seen_header == (nonblank(ls.take(k as int)).len() > 0),
            seen_header ==> width == split(nonblank(ls.take(k as int))[0], ',').len(),
            consistent == (forall|i: int| 1 <= i < nonblank(ls.take(k as int)).len() ==> #[trigger] split(
                nonblank(ls.take(k as int))[i],
                ',',
            ).len() == split(nonblank(ls.take(k as int))[0], ',').len()),
        decreases bounds@.len() - k,
    {
        let (a, b) = bounds[k];
        let (lo, hi) = trim_bounds(&cs, a, b);
        let ghost before = nonblank(ls.take(k as int));
        assert(ls.take(k + 1).drop_last() == ls.take(k as int));
        assert(ls.take(k + 1).last() == ls[k as int]);
        if lo < hi {
            let count = split_bounds(&cs, lo, hi, ',').len();
            let ghost after = nonblank(ls.take(k + 1));
            assert(after == before.push(trim(ls[k as int])));
            if !seen_header {
                width = count;
                seen_header = true;
                assert(after.len() == 1);
            } else {
                assert(after[0] == before[0]);
                assert forall|i: int| 1 <= i < before.len() implies #[trigger] after[i] == before[i] by {}
                if count != width {
                    consistent = false;
                }
                proof {
                    let q = after.len() - 1;
                    if consistent {
                        assert forall|i: int| 1 <= i < after.len() implies #[trigger] split(after[i], ',').len()
                            == split(after[0], ',').len() by {
                            if i < before.len() {
                                assert(after[i] == before[i]);
                            }
                        }
                    } else {
                        if count != width {
                            assert(split(after[q], ',').len() != split(after[0], ',').len());
                        } else {
                            let i = choose|i: int| 1 <= i < before.len() && #[trigger] split(before[i], ',').len()
                                != split(before[0], ',').len();
                            assert(after[i] == before[i]);
                        }
                    }
                }
            }
        }
        k = k + 1;
    }
    assert(ls.take(k as int) == ls);
    seen_header && consistent
}

/// The parse of `content`, or `None` where the text would go to the CSV
/// parser and that parser cannot accept it.
pub fn try_parse(content: &str) -> (r: Option<ParsedData>)
    ensures
        r is None <==> (format_from(content@, 0, false) == Format::Csv && !csv_ok(content@))
            || (format_from(content@, 0, false) == Format::Json && json_result(content@) is Err
            && !csv_ok(content@)),
        r matches Some(d) ==> parsed_as(d, content@),
{
    match detect_format(content) {
        Format::Json => {
            match parse_json(content) {
                Ok(data) => Some(data),
                Err(_) => if csv_acceptable(content) {
                    Some(csv_or_nothing(content))
                } else {
                    None
                },
            }
        },
        Format::Csv => if csv_acceptable(content) {
            Some(csv_or_nothing(content))
        } else {
            None
        },
        Format::KeyValueConfig => Some(parse_key_value_config(content)),
    }
}

/// The CSV parser accepts `s`: it has a non-blank line and consistent rows.
pub open spec fn csv_ok(s: Seq<char>) -> bool {
    csv_lines(s).len() > 0 && csv_rows_consistent(s)
}

/// `d` is what the parser for the detected format makes of `s`; text
/// detected as JSON that the JSON parser rejects is read as CSV.
pub open spec fn parsed_as(d: ParsedData, s: Seq<char>) -> bool {
    let f = format_from(s, 0, false);
    &&& f == Format::KeyValueConfig ==> (d matches ParsedData::Config(v) && pairs_view(v@) == config_pairs(s))
    &&& f == Format::Json ==> (json_result(s) matches Ok(rs) ==> (d matches ParsedData::JsonRecords(v)
        && records_view(v@) == rs))
    &&& f == Format::Csv || (f == Format::Json && json_result(s) is Err) ==> (d matches ParsedData::CsvTable {
        headers,
        rows,
    } && csv_table_of(headers@, rows@, s))
}

/// `headers` and `rows` are the CSV table of `s`.
pub open spec fn csv_table_of(headers: Seq<String>, rows: Seq<Vec<String>>, s: Seq<char>) -> bool {
    let ls = csv_lines(s);
    &&& strings_view(headers) == fields(ls[0])
    &&& rows.len() == ls.len() - 1
    &&& forall|i: int| 0 <= i < rows.len() ==> strings_view((#[trigger] rows[i])@) == fields(ls[i + 1])
}

/// Route `content` to the parser for its detected format. Content detected
/// as JSON that the JSON parser rejects is read as CSV instead.
pub fn parse(content: &str) -> (r: ParsedData)
    requires
        format_from(content@, 0, false) == Format::Csv ==> csv_ok(content@),
        format_from(content@, 0, false) == Format::Json && json_result(content@) is Err ==> csv_ok(
            content@,
        ),
    ensures
        parsed_as(r, content@),
{
    match detect_format(content) {
        Format::Json => {
            match parse_json(content) {
                Ok(data) => data,
                Err(_) => csv_or_nothing(content),
            }
        },
        Format::Csv => csv_or_nothing(content),
        Format::KeyValueConfig => parse_key_value_config(content),
    }
}

/// The CSV table of text that the CSV parser accepts.
fn csv_or_nothing(content: &str) -> (r: ParsedData)
    requires
        csv_ok(content@),
    ensures
        r matches ParsedData::CsvTable { headers, rows } && csv_table_of(headers@, rows@, content@),
{
    match parse_csv(content) {
        Ok(data) => data,
        Err(_) => {
            proof {
                assert(false);
            }
            ParsedData::Config(Vec::new())
        },
    }
}

} // verus!
