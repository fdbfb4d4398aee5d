//! Sequences of strings, and the comma-separated feature list of the
//! command line.

use vstd::prelude::*;
use vstd::string::*;

verus! {

/// The texts of a sequence of strings.
pub open spec fn texts(v: Seq<String>) -> Seq<Seq<char>> {
    v.map_values(|s: String| s@)
}

/// A character of the Unicode property `White_Space`, which is what
/// `char::is_whitespace` and `str::trim` go by.
pub open spec fn is_white_space(c: char) -> bool {
    let u = c as u32;
    ||| 0x9 <= u <= 0xD
    ||| u == 0x20
    ||| u == 0x85
    ||| u == 0xA0
    ||| u == 0x1680
    ||| 0x2000 <= u <= 0x200A
    ||| u == 0x2028
    ||| u == 0x2029
    ||| u == 0x202F
    ||| u == 0x205F
    ||| u == 0x3000
}

/// The text without its leading white space.
pub open spec fn trim_start(s: Seq<char>) -> Seq<char>
    decreases s.len(),
{
    if s.len() > 0 && is_white_space(s[0]) {
        trim_start(s.drop_first())
    } else {
        s
    }
}

/// The text without its trailing white space.
pub open spec fn trim_end(s: Seq<char>) -> Seq<char>
    decreases s.len(),
{
    if s.len() > 0 && is_white_space(s.last()) {
        trim_end(s.drop_last())
    } else {
        s
    }
}

/// The text without leading and trailing white space, as `str::trim`.
pub open spec fn trim(s: Seq<char>) -> Seq<char> {
    trim_end(trim_start(s))
}

/// The pieces between the commas of a text, as `str::split(',')`: one more
/// piece than there are commas, empty ones included.
pub open spec fn split_commas(s: Seq<char>) -> Seq<Seq<char>>
    decreases s.len(),
{
    if s.len() == 0 {
        seq![Seq::<char>::empty()]
    } else {
        let parts = split_commas(s.drop_last());
        if s.last() == ',' {
            parts.push(Seq::<char>::empty())
        } else {
            parts.update(parts.len() - 1, parts.last().push(s.last()))
        }
    }
}

/// The first occurrence of each element, in the order of those occurrences.
pub open spec fn distinct<A>(s: Seq<A>) -> Seq<A>
    decreases s.len(),
{
    if s.len() == 0 {
        Seq::empty()
    } else {
        let d = distinct(s.drop_last());
        if d.contains(s.last()) {
            d
        } else {
            d.push(s.last())
        }
    }
}

/// The set of features that the command line names: the trimmed pieces
/// between its commas, each once.
pub open spec fn feature_list(s: Seq<char>) -> Seq<Seq<char>> {
    distinct(split_commas(s).map_values(|p: Seq<char>| trim(p)))
}

pub proof fn lemma_split_commas_nonempty(s: Seq<char>)
    ensures
        split_commas(s).len() >= 1,
    decreases s.len(),
{
    if s.len() > 0 {
        lemma_split_commas_nonempty(s.drop_last());
    }
}

pub proof fn lemma_distinct_props<A>(s: Seq<A>)
    ensures
        distinct(s).no_duplicates(),
        forall|x: A| distinct(s).contains(x) <==> s.contains(x),
    decreases s.len(),
{
    if s.len() > 0 {
        lemma_distinct_props(s.drop_last());
        let d = distinct(s.drop_last());
        assert forall|x: A| distinct(s).contains(x) <==> s.contains(x) by {
            if s.contains(x) && !(s.drop_last().contains(x)) {
                let i = choose|i: int| 0 <= i < s.len() && s[i] == x;
                if i < s.len() - 1 {
                    assert(s.drop_last()[i] == x);
                }
                assert(x == s.last());
                if !d.contains(x) {
                    assert(d.push(x)[d.len() as int] == x);
                }
            }
            if s.drop_last().contains(x) {
                let i = choose|i: int| 0 <= i < s.drop_last().len() && s.drop_last()[i] == x;
                assert(s[i] == x);
            }
            if distinct(s).contains(x) && !d.contains(x) {
                let j = choose|j: int| 0 <= j < distinct(s).len() && distinct(s)[j] == x;
                assert(x == s.last());
                assert(s[s.len() - 1] == x);
            }
            if d.contains(x) {
                let j = choose|j: int| 0 <= j < d.len() && d[j] == x;
                if !d.contains(s.last()) {
                    assert(d.push(s.last())[j] == x);
                }
            }
        }
    }
}

/// Whether a text is among the texts of a vector of strings.
pub fn contains_text(v: &Vec<String>, s: &String) -> (r: bool)
    ensures
        r == texts(v@).contains(s@),
{
    let mut i: usize = 0;
    while i < v.len()
        invariant
            0 <= i <= v.len(),
            forall|j: int| 0 <= j < i ==> v@[j]@ != s@,
        decreases v.len() - i,
    {
        if v[i].eq(s) {
            assert(texts(v@)[i as int] == s@);
            return true;
        }
        i = i + 1;
    }
    assert forall|j: int| 0 <= j < texts(v@).len() implies texts(v@)[j] != s@ by {
        assert(texts(v@)[j] == v@[j]@);
    }
    false
}

/// `char::is_whitespace`, written out.
pub fn is_white_space_char(c: char) -> (r: bool)
    ensures
        r == is_white_space(c),
{
    let u = c as u32;
    (0x9 <= u && u <= 0xD) || u == 0x20 || u == 0x85 || u == 0xA0 || u == 0x1680 || (0x2000 <= u
        && u <= 0x200A) || u == 0x2028 || u == 0x2029 || u == 0x202F || u == 0x205F || u == 0x3000
}

/// The bounds, within `start..end`, of that part of the text without its
/// leading and trailing white space.
fn trimmed_bounds(text: &str, start: usize, end: usize) -> (r: (usize, usize))
    requires
        start <= end <= text@.len(),
    ensures
        start <= r.0 <= r.1 <= end,
        text@.subrange(r.0 as int, r.1 as int) == trim(text@.subrange(start as int, end as int)),
{
    let mut lo = start;
    while lo < end && is_white_space_char(text.get_char(lo))
        invariant
            start <= lo <= end <= text@.len(),
            trim_start(text@.subrange(start as int, end as int)) == trim_start(
                text@.subrange(lo as int, end as int),
            ),
        decreases end - lo,
    {
        assert(text@.subrange(lo as int, end as int).drop_first() =~= text@.subrange(
            lo + 1,
            end as int,
        ));
        lo = lo + 1;
    }
    assert(trim_start(text@.subrange(start as int, end as int)) == text@.subrange(
        lo as int,
        end as int,
    ));
    let mut hi = end;
    while hi > lo && is_white_space_char(text.get_char(hi - 1))
        invariant
            start <= lo <= hi <= end <= text@.len(),
            trim_end(text@.subrange(lo as int, end as int)) == trim_end(
                text@.subrange(lo as int, hi as int),
            ),
        decreases hi - lo,
    {
        assert(text@.subrange(lo as int, hi as int).drop_last() =~= text@.subrange(
            lo as int,
            hi - 1,
        ));
        hi = hi - 1;
    }
    (lo, hi)
}

proof fn lemma_distinct_push<A>(s: Seq<A>, x: A)
    ensures
        distinct(s.push(x)) == (if distinct(s).contains(x) {
            distinct(s)
        } else {
            distinct(s).push(x)
        }),
{
    assert(s.push(x).drop_last() =~= s);
}

/// The features that a comma-separated list names: each piece between
/// commas, trimmed of white space, once, in the order of first mention.
pub fn parse_feature_list(features: &str) -> (r: Vec<String>)
    ensures
        texts(r@) == feature_list(features@),
        texts(r@).no_duplicates(),
{
    let n = features.unicode_len();
    let mut out: Vec<String> = Vec::new();
    let mut start: usize = 0;
    let mut i: usize = 0;
    proof {
        assert(features@.take(0) =~= Seq::<char>::empty());
        assert(features@.subrange(0, 0) =~= Seq::<char>::empty());
    }
    while i < n
        invariant
            n == features@.len(),
            0 <= start <= i <= n,
            split_commas(features@.take(i as int)).last() == features@.subrange(
                start as int,
                i as int,
            ),
            texts(out@) == distinct(
                split_commas(features@.take(i as int)).drop_last().map_values(
                    |p: Seq<char>| trim(p),
                ),
            ),
        decreases n - i,
    {
        let c = features.get_char(i);
        let ghost parts = split_commas(features@.take(i as int));
        proof {
            lemma_split_commas_nonempty(features@.take(i as int));
            assert(features@.take(i + 1).drop_last() =~= features@.take(i as int));
            assert(features@.take(i + 1).last() == c);
        }
        if c == ',' {
            let (lo, hi) = trimmed_bounds(features, start, i);
            let piece = String::from_str(features.substring_char(lo, hi));
            let ghost before = parts.drop_last().map_values(|p: Seq<char>| trim(p));
            proof {
                let after = split_commas(features@.take(i + 1));
                assert(after == parts.push(Seq::<char>::empty()));
                assert(after.drop_last() =~= parts);
                assert(parts =~= parts.drop_last().push(parts.last()));
                assert(parts.map_values(|p: Seq<char>| trim(p)) =~= before.push(piece@));
                lemma_distinct_push(before, piece@);
                assert(features@.subrange(i + 1, i + 1) =~= Seq::<char>::empty());
            }
            if !contains_text(&out, &piece) {
                out.push(piece);
                assert(texts(out@) =~= texts(out@).drop_last().push(out@.last()@));
            }
            start = i + 1;
        } else {
            proof {
                let after = split_commas(features@.take(i + 1));
                assert(after == parts.update(parts.len() - 1, parts.last().push(c)));
                assert(after.drop_last() =~= parts.drop_last());
                assert(features@.subrange(start as int, i + 1) =~= features@.subrange(
                    start as int,
                    i as int,
                ).push(c));
            }
        }
        i = i + 1;
    }
    let (lo, hi) = trimmed_bounds(features, start, n);
    let piece = String::from_str(features.substring_char(lo, hi));
    proof {
        let parts = split_commas(features@.take(n as int));
        lemma_split_commas_nonempty(features@.take(n as int));
        assert(features@.take(n as int) =~= features@);
        assert(parts =~= parts.drop_last().push(parts.last()));
        let before = parts.drop_last().map_values(|p: Seq<char>| trim(p));
        assert(parts.map_values(|p: Seq<char>| trim(p)) =~= before.push(piece@));
        lemma_distinct_push(before, piece@);
    }
    if !contains_text(&out, &piece) {
        out.push(piece);
        assert(texts(out@) =~= texts(out@).drop_last().push(out@.last()@));
    }
    proof {
        lemma_distinct_props(split_commas(features@).map_values(|p: Seq<char>| trim(p)));
    }
    out
}


/// The texts of a sequence of pairs of strings.
pub open spec fn pair_texts(v: Seq<(String, String)>) -> Seq<(Seq<char>, Seq<char>)> {
    v.map_values(|x: (String, String)| (x.0@, x.1@))
}

/// Each of `s` paired, in order, after `x`.
pub open spec fn paired_with(x: Seq<char>, s: Seq<Seq<char>>) -> Seq<(Seq<char>, Seq<char>)> {
    s.map_values(|y: Seq<char>| (x, y))
}

/// Appends `(first, s)` for each `s` of `seconds`, in order.
pub fn append_pairs(out: &mut Vec<(String, String)>, first: &String, seconds: &Vec<String>)
    ensures
        pair_texts(final(out)@) == pair_texts(old(out)@) + paired_with(first@, texts(seconds@)),
        final(out)@.len() == old(out)@.len() + seconds@.len(),
{
    let ghost start = pair_texts(out@);
    let mut k: usize = 0;
    while k < seconds.len()
        invariant
            0 <= k <= seconds.len(),
            pair_texts(out@) == start + paired_with(first@, texts(seconds@).take(k as int)),
            out@.len() == old(out)@.len() + k,
        decreases seconds.len() - k,
    {
        let ghost prev = out@;
        let pair = (first.clone(), seconds[k].clone());
        out.push(pair);
        proof {
            let t = texts(seconds@);
            assert(t.take(k + 1) =~= t.take(k as int).push(seconds@[k as int]@));
            assert(pair_texts(out@) =~= pair_texts(prev).push((first@, seconds@[k as int]@)));
            assert(paired_with(first@, t.take(k + 1)) =~= paired_with(first@, t.take(k as int)).push(
                (first@, seconds@[k as int]@),
            ));
            assert(pair_texts(out@) =~= start + paired_with(
                first@,
                texts(seconds@).take(k + 1),
            ));
        }
        k = k + 1;
    }
    assert(texts(seconds@).take(k as int) =~= texts(seconds@));
}

/// Appending the pairs of a new first component to pairs that have none:
/// what the result holds, and that it repeats nothing where neither part
/// does.
pub proof fn lemma_paired_append(
    prev: Seq<(Seq<char>, Seq<char>)>,
    x: Seq<char>,
    s: Seq<Seq<char>>,
)
    requires
        prev.no_duplicates(),
        s.no_duplicates(),
        forall|v: Seq<char>| #![trigger prev.contains((x, v))] !prev.contains((x, v)),
    ensures
        (prev + paired_with(x, s)).no_duplicates(),
        forall|g: Seq<char>, v: Seq<char>|
            #![trigger (prev + paired_with(x, s)).contains((g, v))]
            (prev + paired_with(x, s)).contains((g, v)) <==> (prev.contains((g, v)) || (g == x
                && s.contains(v))),
{
    let pw = paired_with(x, s);
    let all = prev + pw;
    assert forall|a: int, b: int| 0 <= a < b < all.len() implies all[a] != all[b] by {
        if b >= prev.len() {
            let vb = s[b - prev.len()];
            assert(all[b] == (x, vb));
            if a < prev.len() {
                assert(prev[a] == all[a]);
                if all[a] == all[b] {
                    assert(prev.contains((x, vb)));
                }
            } else {
                assert(all[a] == (x, s[a - prev.len()]));
            }
        } else {
            assert(all[a] == prev[a] && all[b] == prev[b]);
        }
    }
    assert forall|g: Seq<char>, v: Seq<char>|
        #![trigger (prev + paired_with(x, s)).contains((g, v))]
        all.contains((g, v)) <==> (prev.contains((g, v)) || (g == x && s.contains(v))) by {
        if all.contains((g, v)) {
            let i = choose|i: int| 0 <= i < all.len() && all[i] == (g, v);
            if i < prev.len() {
                assert(prev[i] == (g, v));
            } else {
                assert(pw[i - prev.len()] == (g, v));
                assert(s[i - prev.len()] == v);
            }
        }
        if prev.contains((g, v)) {
            let i = choose|i: int| 0 <= i < prev.len() && prev[i] == (g, v);
            assert(all[i] == (g, v));
        }
        if g == x && s.contains(v) {
            let i = choose|i: int| 0 <= i < s.len() && s[i] == v;
            assert(all[prev.len() + i] == (g, v));
        }
    }
}

/// The first `j + 1` elements of a sequence: the first `j`, then the
/// element at `j`.
pub proof fn lemma_take_next<A>(s: Seq<A>, j: int)
    requires
        0 <= j < s.len(),
    ensures
        s.take(j + 1) == s.take(j).push(s[j]),
        forall|x: A| #[trigger] s.take(j + 1).contains(x) <==> (s.take(j).contains(x) || x == s[j]),
{
    assert(s.take(j + 1) =~= s.take(j).push(s[j]));
    assert forall|x: A| #[trigger] s.take(j + 1).contains(x) <==> (s.take(j).contains(x) || x
        == s[j]) by {
        if s.take(j + 1).contains(x) && x != s[j] {
            let i = choose|i: int| 0 <= i < j + 1 && #[trigger] s.take(j + 1)[i] == x;
            assert(s.take(j)[i] == x);
        }
        if s.take(j).contains(x) {
            let i = choose|i: int| 0 <= i < j && #[trigger] s.take(j)[i] == x;
            assert(s.take(j + 1)[i] == x);
        }
        if x == s[j] {
            assert(s.take(j + 1)[j] == x);
        }
    }
}

/// In a sequence without repeats, the element at `j` is not among the
/// first `j`.
pub proof fn lemma_take_excludes_next<A>(s: Seq<A>, j: int)
    requires
        0 <= j < s.len(),
        s.no_duplicates(),
    ensures
        !s.take(j).contains(s[j]),
{
    if s.take(j).contains(s[j]) {
        let i = choose|i: int| 0 <= i < j && #[trigger] s.take(j)[i] == s[j];
        assert(s[i] == s[j]);
    }
}

} // verus!
