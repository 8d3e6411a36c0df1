//! Output normalization: trailing whitespace is trimmed from every line and
//! trailing blank lines collapse, so that two programs' outputs compare equal
//! whenever they differ only in such whitespace.
//!
//! The policy, stated once: split the text on `'\n'`, right-trim every line,
//! drop the trailing run of blank lines, and terminate every remaining line
//! with exactly one `'\n'`. Empty input stays empty; input made of blank
//! lines only becomes a single `'\n'`.

use vstd::prelude::*;
use vstd::string::StrSliceExecFns;

verus! {

/// The characters `char::is_whitespace` accepts: the Unicode `White_Space`
/// set.
pub open spec fn spec_is_space(c: char) -> bool {
    ||| c == ' '
    ||| c == '\t'
    ||| c == '\n'
    ||| c == '\r'
    ||| c == '\u{b}'
    ||| c == '\u{c}'
    ||| c == '\u{85}'
    ||| c == '\u{a0}'
    ||| c == '\u{1680}'
    ||| ('\u{2000}' <= c && c <= '\u{200a}')
    ||| c == '\u{2028}'
    ||| c == '\u{2029}'
    ||| c == '\u{202f}'
    ||| c == '\u{205f}'
    ||| c == '\u{3000}'
}

/// Decides whitespace exactly as `spec_is_space` describes it.
pub fn is_space_char(c: char) -> (r: bool)
    ensures
        r == spec_is_space(c),
{
    c == ' ' || c == '\t' || c == '\n' || c == '\r' || c == '\u{b}' || c == '\u{c}'
        || c == '\u{85}' || c == '\u{a0}' || c == '\u{1680}'
        || ('\u{2000}' <= c && c <= '\u{200a}') || c == '\u{2028}' || c == '\u{2029}'
        || c == '\u{202f}' || c == '\u{205f}' || c == '\u{3000}'
}

/// `s` with its trailing whitespace removed.
pub open spec fn trim_end_spec(s: Seq<char>) -> Seq<char>
    decreases s.len(),
{
    if s.len() == 0 {
        s
    } else if spec_is_space(s.last()) {
        trim_end_spec(s.drop_last())
    } else {
        s
    }
}

/// Index of the first `'\n'` in `s`, or `s.len()` if there is none.
pub open spec fn first_nl(s: Seq<char>) -> int
    decreases s.len(),
{
    if s.len() == 0 {
        0
    } else if s[0] == '\n' {
        0
    } else {
        1 + first_nl(s.drop_first())
    }
}

/// The segments of `s` between `'\n'` separators, as `str::split('\n')`
/// yields them: always at least one segment, and a final empty segment when
/// `s` ends in `'\n'`.
pub open spec fn split_lines(s: Seq<char>) -> Seq<Seq<char>>
    decreases s.len(),
{
    let k = first_nl(s);
    if 0 <= k < s.len() {
        seq![s.take(k)] + split_lines(s.skip(k + 1))
    } else {
        seq![s]
    }
}

/// Every segment of `s`, right-trimmed.
pub open spec fn trimmed_lines(s: Seq<char>) -> Seq<Seq<char>> {
    split_lines(s).map_values(|t: Seq<char>| trim_end_spec(t))
}

/// `ts` with its trailing run of empty lines removed.
pub open spec fn drop_trailing_blank(ts: Seq<Seq<char>>) -> Seq<Seq<char>>
    decreases ts.len(),
{
    if ts.len() == 0 {
        ts
    } else if ts.last().len() == 0 {
        drop_trailing_blank(ts.drop_last())
    } else {
        ts
    }
}

/// Each line followed by exactly one `'\n'`.
pub open spec fn join_lines(ts: Seq<Seq<char>>) -> Seq<char>
    decreases ts.len(),
{
    if ts.len() == 0 {
        Seq::empty()
    } else {
        ts[0] + seq!['\n'] + join_lines(ts.drop_first())
    }
}

/// The normalized form of `s`: lines right-trimmed, trailing blank lines
/// dropped, each kept line closed with one `'\n'`; empty stays empty, and
/// all-blank input becomes a single `'\n'`.
pub open spec fn normalize(s: Seq<char>) -> Seq<char> {
    if s.len() == 0 {
        s
    } else {
        let ts = drop_trailing_blank(trimmed_lines(s));
        if ts.len() == 0 {
            seq!['\n']
        } else {
            join_lines(ts)
        }
    }
}

proof fn lemma_first_nl_bounds(s: Seq<char>)
    ensures
        0 <= first_nl(s) <= s.len(),
        forall|j: int| 0 <= j < first_nl(s) ==> s[j] != '\n',
        first_nl(s) < s.len() ==> s[first_nl(s)] == '\n',
    decreases s.len(),
{
    if s.len() != 0 && s[0] != '\n' {
        lemma_first_nl_bounds(s.drop_first());
        assert forall|j: int| 0 <= j < first_nl(s) implies s[j] != '\n' by {
            if j > 0 {
                assert(s.drop_first()[j - 1] == s[j]);
            }
        }
        if first_nl(s) < s.len() {
            assert(s.drop_first()[first_nl(s) - 1] == s[first_nl(s)]);
        }
    }
}

proof fn lemma_first_nl_at(s: Seq<char>, k: int)
    requires
        0 <= k <= s.len(),
        forall|j: int| 0 <= j < k ==> s[j] != '\n',
        k == s.len() || s[k] == '\n',
    ensures
        first_nl(s) == k,
    decreases k,
{
    if k == 0 {
    } else {
        assert(s[0] != '\n');
        assert forall|j: int| 0 <= j < k - 1 implies s.drop_first()[j] != '\n' by {
            assert(s.drop_first()[j] == s[j + 1]);
        }
        if k < s.len() {
            assert(s.drop_first()[k - 1] == s[k]);
        }
        lemma_first_nl_at(s.drop_first(), k - 1);
    }
}

proof fn lemma_trim_end_at(s: Seq<char>, k: int)
    requires
        0 <= k <= s.len(),
        forall|j: int| k <= j < s.len() ==> spec_is_space(s[j]),
        k == 0 || !spec_is_space(s[k - 1]),
    ensures
        trim_end_spec(s) == s.take(k),
    decreases s.len(),
{
    if s.len() == k {
        assert(s.take(k) =~= s);
    } else {
        assert(spec_is_space(s.last()));
        lemma_trim_end_at(s.drop_last(), k);
        assert(s.drop_last().take(k) =~= s.take(k));
    }
}

proof fn lemma_join_snoc(ts: Seq<Seq<char>>, t: Seq<char>)
    ensures
        join_lines(ts.push(t)) == join_lines(ts) + t + seq!['\n'],
    decreases ts.len(),
{
    if ts.len() == 0 {
        assert(ts.push(t)[0] == t);
        assert(ts.push(t).drop_first() =~= Seq::<Seq<char>>::empty());
        assert(join_lines(Seq::<Seq<char>>::empty()) == Seq::<char>::empty());
        assert(join_lines(ts.push(t))
            == t + seq!['\n'] + join_lines(ts.push(t).drop_first()));
        assert(join_lines(ts.push(t)) =~= join_lines(ts) + t + seq!['\n']);
    } else {
        assert(ts.push(t).drop_first() =~= ts.drop_first().push(t));
        lemma_join_snoc(ts.drop_first(), t);
        assert(ts.push(t)[0] == ts[0]);
        assert(join_lines(ts.push(t))
            == ts[0] + seq!['\n'] + join_lines(ts.drop_first().push(t)));
        assert(join_lines(ts.push(t))
            == ts[0] + seq!['\n'] + (join_lines(ts.drop_first()) + t + seq!['\n']));
        assert(join_lines(ts) == ts[0] + seq!['\n'] + join_lines(ts.drop_first()));
        assert(join_lines(ts.push(t)) =~= join_lines(ts) + t + seq!['\n']);
    }
}

proof fn lemma_trim_end_props(s: Seq<char>)
    ensures
        trim_end_spec(s).len() <= s.len(),
        trim_end_spec(s) == s.take(trim_end_spec(s).len() as int),
        trim_end_spec(s).len() > 0 ==> !spec_is_space(trim_end_spec(s).last()),
    decreases s.len(),
{
    if s.len() == 0 {
        assert(s.take(0) =~= s);
    } else if spec_is_space(s.last()) {
        lemma_trim_end_props(s.drop_last());
        assert(s.drop_last().take(trim_end_spec(s).len() as int)
            =~= s.take(trim_end_spec(s).len() as int));
    } else {
        assert(s.take(s.len() as int) =~= s);
    }
}

proof fn lemma_trim_end_idem(s: Seq<char>)
    ensures
        trim_end_spec(trim_end_spec(s)) == trim_end_spec(s),
{
    lemma_trim_end_props(s);
}

proof fn lemma_split_lines_no_nl(s: Seq<char>)
    ensures
        forall|i: int, j: int|
            0 <= i < split_lines(s).len() && 0 <= j < split_lines(s)[i].len()
                ==> split_lines(s)[i][j] != '\n',
    decreases s.len(),
{
    lemma_first_nl_bounds(s);
    let k = first_nl(s);
    if 0 <= k < s.len() {
        lemma_split_lines_no_nl(s.skip(k + 1));
        assert forall|i: int, j: int|
            0 <= i < split_lines(s).len() && 0 <= j < split_lines(s)[i].len()
                implies split_lines(s)[i][j] != '\n' by {
            if i == 0 {
                assert(split_lines(s)[0] == s.take(k));
                assert(s.take(k)[j] == s[j]);
            } else {
                assert(split_lines(s)[i] == split_lines(s.skip(k + 1))[i - 1]);
            }
        }
    } else {
        assert forall|i: int, j: int|
            0 <= i < split_lines(s).len() && 0 <= j < split_lines(s)[i].len()
                implies split_lines(s)[i][j] != '\n' by {
            assert(split_lines(s)[i] == s);
            assert(j < k);
        }
    }
}

proof fn lemma_join_nonempty(ts: Seq<Seq<char>>)
    requires
        ts.len() > 0,
    ensures
        join_lines(ts).len() > 0,
{
}

proof fn lemma_split_join(ts: Seq<Seq<char>>)
    requires
        ts.len() > 0,
        forall|i: int, j: int|
            0 <= i < ts.len() && 0 <= j < ts[i].len() ==> ts[i][j] != '\n',
    ensures
        split_lines(join_lines(ts)) == ts + seq![Seq::<char>::empty()],
    decreases ts.len(),
{
    let s = join_lines(ts);
    let t0 = ts[0];
    let rest = join_lines(ts.drop_first());
    assert(s == t0 + seq!['\n'] + rest);
    assert forall|j: int| 0 <= j < t0.len() implies s[j] != '\n' by {
        assert(s[j] == t0[j]);
    }
    assert(s[t0.len() as int] == '\n');
    lemma_first_nl_at(s, t0.len() as int);
    assert(s.take(t0.len() as int) =~= t0);
    assert(s.skip(t0.len() as int + 1) =~= rest);
    if ts.len() == 1 {
        assert(ts.drop_first().len() == 0);
        assert(rest == Seq::<char>::empty());
        assert(first_nl(rest) == 0);
        assert(split_lines(rest) == seq![rest]);
        assert(split_lines(s) == seq![t0] + seq![rest]);
        assert(seq![t0] + seq![rest] =~= ts + seq![Seq::<char>::empty()]);
    } else {
        assert forall|i: int, j: int|
            0 <= i < ts.drop_first().len() && 0 <= j < ts.drop_first()[i].len()
                implies ts.drop_first()[i][j] != '\n' by {
            assert(ts.drop_first()[i] == ts[i + 1]);
        }
        lemma_split_join(ts.drop_first());
        assert(split_lines(s) == seq![t0] + (ts.drop_first() + seq![Seq::<char>::empty()]));
        assert(seq![t0] + (ts.drop_first() + seq![Seq::<char>::empty()])
            =~= ts + seq![Seq::<char>::empty()]);
    }
}

proof fn lemma_dtb_prefix(ts: Seq<Seq<char>>)
    ensures
        drop_trailing_blank(ts).len() <= ts.len(),
        drop_trailing_blank(ts) == ts.take(drop_trailing_blank(ts).len() as int),
        drop_trailing_blank(ts).len() > 0 ==> drop_trailing_blank(ts).last().len() > 0,
    decreases ts.len(),
{
    if ts.len() == 0 {
        assert(ts.take(0) =~= ts);
    } else if ts.last().len() == 0 {
        lemma_dtb_prefix(ts.drop_last());
        assert(ts.drop_last().take(drop_trailing_blank(ts).len() as int)
            =~= ts.take(drop_trailing_blank(ts).len() as int));
    } else {
        assert(ts.take(ts.len() as int) =~= ts);
    }
}

/// Law: normalization is idempotent. Normalizing an already-normalized text
/// changes nothing, so a second pass through `process_str` is a no-op.
pub proof fn lemma_normalize_idempotent(s: Seq<char>)
    ensures
        normalize(normalize(s)) == normalize(s),
{
    if s.len() == 0 {
    } else {
        let ts0 = trimmed_lines(s);
        let ts = drop_trailing_blank(ts0);
        lemma_dtb_prefix(ts0);
        if ts.len() == 0 {
            let n = seq!['\n'];
            assert(normalize(s) == n);
            assert(first_nl(n) == 0);
            assert(n.take(0) =~= Seq::<char>::empty());
            assert(n.skip(1) =~= Seq::<char>::empty());
            assert(first_nl(Seq::<char>::empty()) == 0);
            assert(split_lines(Seq::<char>::empty()) == seq![Seq::<char>::empty()]);
            assert(split_lines(n) == seq![Seq::<char>::empty()] + seq![Seq::<char>::empty()]);
            let e = Seq::<char>::empty();
            assert(trimmed_lines(n) =~= seq![e, e]);
            assert(trim_end_spec(e) == e);
            assert(seq![e, e].drop_last() =~= seq![e]);
            assert(seq![e].drop_last() =~= Seq::<Seq<char>>::empty());
            assert(drop_trailing_blank(Seq::<Seq<char>>::empty()).len() == 0);
            assert(drop_trailing_blank(seq![e]) == drop_trailing_blank(Seq::<Seq<char>>::empty()));
            assert(drop_trailing_blank(seq![e, e]) == drop_trailing_blank(seq![e]));
            assert(drop_trailing_blank(trimmed_lines(n)).len() == 0);
            assert(normalize(n) == n);
        } else {
            assert(normalize(s) == join_lines(ts));
            let r = join_lines(ts);
            lemma_join_nonempty(ts);
            // Every kept line is newline-free and right-trimmed.
            lemma_split_lines_no_nl(s);
            assert forall|i: int, j: int|
                0 <= i < ts.len() && 0 <= j < ts[i].len() implies ts[i][j] != '\n' by {
                assert(ts[i] == ts0[i]);
                assert(ts0[i] == trim_end_spec(split_lines(s)[i]));
                lemma_trim_end_props(split_lines(s)[i]);
                assert(ts0[i] == split_lines(s)[i].take(ts0[i].len() as int));
                assert(ts[i][j] == split_lines(s)[i][j]);
            }
            assert forall|i: int| 0 <= i < ts.len()
                implies trim_end_spec(ts[i]) == ts[i] by {
                assert(ts[i] == ts0[i]);
                assert(ts0[i] == trim_end_spec(split_lines(s)[i]));
                lemma_trim_end_idem(split_lines(s)[i]);
            }
            lemma_split_join(ts);
            let e = Seq::<char>::empty();
            assert(split_lines(r) == ts + seq![e]);
            assert(trimmed_lines(r) =~= ts + seq![e]) by {
                assert(trim_end_spec(e) == e);
                assert forall|i: int| 0 <= i < trimmed_lines(r).len()
                    implies trimmed_lines(r)[i] == (ts + seq![e])[i] by {
                    if i < ts.len() {
                        assert(trimmed_lines(r)[i] == trim_end_spec(ts[i]));
                    } else {
                        assert(trimmed_lines(r)[i] == trim_end_spec(e));
                    }
                }
            }
            assert((ts + seq![e]).last().len() == 0);
            assert((ts + seq![e]).drop_last() =~= ts);
            assert(drop_trailing_blank(ts + seq![e]) == drop_trailing_blank(ts));
            assert(drop_trailing_blank(ts) == ts);
            assert(normalize(r) == join_lines(ts));
        }
    }
}

/// Collects the characters of `s` in order.
fn collect_chars(s: &str) -> (v: Vec<char>)
    ensures
        v@ == s@,
{
    let n = s.unicode_len();
    let mut v: Vec<char> = Vec::new();
    let mut i: usize = 0;
    while i < n
        invariant
            n == s@.len(),
            i <= n,
            v@ == s@.take(i as int),
        decreases n - i,
    {
        let c = s.get_char(i);
        v.push(c);
        i = i + 1;
        assert(v@ =~= s@.take(i as int));
    }
    assert(s@.take(n as int) =~= s@);
    v
}

/// The first `k` elements of `v`, as a fresh vector.
fn vec_prefix(v: &Vec<char>, k: usize) -> (r: Vec<char>)
    requires
        k <= v@.len(),
    ensures
        r@ == v@.take(k as int),
{
    let mut r: Vec<char> = Vec::new();
    let mut i: usize = 0;
    while i < k
        invariant
            i <= k <= v@.len(),
            r@ == v@.take(i as int),
        decreases k - i,
    {
        let c = v[i];
        r.push(c);
        i = i + 1;
        assert(r@ =~= v@.take(i as int));
    }
    r
}

/// Relies on `String: FromIterator<char>`: collecting characters yields the
/// string of exactly those characters in order.
#[verifier::external_body]
pub(crate) fn chars_to_string(v: &Vec<char>) -> (s: String)
    ensures
        s@ == v@,
{
    v.iter().collect()
}

/// Normalizes `v` as `normalize` describes: each line right-trimmed and
/// closed with one `'\n'`, trailing blank lines dropped.
fn normalize_chars(v: &Vec<char>) -> (r: Vec<char>)
    ensures
        r@ == normalize(v@),
{
    if v.len() == 0 {
        let r: Vec<char> = Vec::new();
        return r;
    }
    let ghost tls = trimmed_lines(v@);
    let mut out: Vec<char> = Vec::new();
    let mut kept: usize = 0;
    let mut i: usize = 0;
    let ghost mut done: int = 0;
    proof {
        assert(v@.skip(0) =~= v@);
        assert(split_lines(v@).take(0) =~= Seq::<Seq<char>>::empty());
        assert(tls.take(0) =~= Seq::<Seq<char>>::empty());
        assert(Seq::<Seq<char>>::empty() + split_lines(v@) =~= split_lines(v@));
        assert(out@.take(0) =~= Seq::<char>::empty());
    }
    loop
        invariant_except_break
            split_lines(v@) =~= split_lines(v@).take(done) + split_lines(v@.skip(i as int)),
            done + split_lines(v@.skip(i as int)).len() == split_lines(v@).len(),
        invariant
            v@.len() > 0,
            i <= v@.len(),
            0 <= done,
            tls == split_lines(v@).map_values(|t: Seq<char>| trim_end_spec(t)),
            out@ == join_lines(tls.take(done)),
            kept <= out@.len(),
            kept as int == join_lines(drop_trailing_blank(tls.take(done))).len(),
            join_lines(drop_trailing_blank(tls.take(done))) == out@.take(kept as int),
        ensures
            done == tls.len(),
        decreases v@.len() - i,
    {
        // Scan for the end of the current line.
        let mut j: usize = i;
        while j < v.len() && *(&v[j]) != '\n'
            invariant
                i <= j <= v@.len(),
                forall|idx: int| i <= idx < j ==> v@[idx] != '\n',
            decreases v@.len() - j,
        {
            j = j + 1;
        }
        proof {
            assert forall|jj: int| 0 <= jj < j - i implies v@.skip(i as int)[jj] != '\n' by {
                assert(v@.skip(i as int)[jj] == v@[i + jj]);
            }
            if (j as int) < v@.len() {
                assert(v@.skip(i as int)[j - i] == v@[j as int]);
            }
            lemma_first_nl_at(v@.skip(i as int), j - i);
        }
        let ghost seg = v@.skip(i as int).take(j - i);
        proof {
            assert(seg =~= v@.subrange(i as int, j as int));
            if j == v@.len() {
                assert(seg =~= v@.skip(i as int));
            }
        }
        // Scan back over trailing whitespace of the line.
        let mut k: usize = j;
        while k > i && is_space_char(*(&v[k - 1]))
            invariant
                i <= k <= j <= v@.len(),
                forall|idx: int| k <= idx < j ==> spec_is_space(v@[idx]),
            decreases k,
        {
            k = k - 1;
        }
        proof {
            assert forall|jj: int| k - i <= jj < seg.len() implies spec_is_space(seg[jj]) by {
                assert(seg[jj] == v@[i + jj]);
            }
            if k > i {
                assert(seg[k - i - 1] == v@[k - 1]);
            }
            lemma_trim_end_at(seg, k - i);
        }
        let ghost trimmed = trim_end_spec(seg);
        proof {
            assert(trimmed =~= v@.subrange(i as int, k as int));
        }
        // Emit the trimmed line and one newline.
        let ghost out_before = out@;
        let mut idx: usize = i;
        while idx < k
            invariant
                i <= idx <= k <= v@.len(),
                out@ == out_before + v@.subrange(i as int, idx as int),
            decreases k - idx,
        {
            let c = v[idx];
            out.push(c);
            idx = idx + 1;
            assert(out@ =~= out_before + v@.subrange(i as int, idx as int));
        }
        out.push('\n');
        proof {
            // The segment just handled is line number `done` of the split.
            assert(split_lines(v@.skip(i as int))[0] == seg);
            assert(split_lines(v@)[done] == seg);
            assert(tls[done] == trimmed);
            assert(tls.take(done + 1) =~= tls.take(done).push(trimmed));
            lemma_join_snoc(tls.take(done), trimmed);
            assert(out@ =~= join_lines(tls.take(done)) + trimmed + seq!['\n']);
        }
        if k > i {
            kept = out.len();
            proof {
                assert(trimmed.len() > 0);
                assert(tls.take(done + 1).last() == trimmed);
                assert(drop_trailing_blank(tls.take(done + 1)) == tls.take(done + 1));
                assert(out@.take(out@.len() as int) =~= out@);
            }
        } else {
            proof {
                assert(trimmed.len() == 0);
                assert(tls.take(done + 1).drop_last() =~= tls.take(done));
                assert(drop_trailing_blank(tls.take(done + 1))
                    == drop_trailing_blank(tls.take(done)));
                assert(out@.take(kept as int) =~= out_before.take(kept as int));
            }
        }
        proof {
            done = done + 1;
        }
        if j == v.len() {
            proof {
                lemma_first_nl_at(v@.skip(i as int), j - i);
                assert(split_lines(v@.skip(i as int)) =~= seq![seg]);
                assert(done == split_lines(v@).len());
                assert(tls.take(done) =~= tls);
            }
            break;
        }
        proof {
            // One more line of the split is accounted for.
            assert(v@.skip(i as int).skip(j - i + 1) =~= v@.skip(j + 1));
            assert(split_lines(v@.skip(i as int))
                == seq![seg] + split_lines(v@.skip(j + 1)));
            assert(split_lines(v@).take(done)
                =~= split_lines(v@).take(done - 1).push(seg));
            assert(split_lines(v@)
                =~= split_lines(v@).take(done) + split_lines(v@.skip(j + 1)));
        }
        i = j + 1;
    }
    proof {
        assert(tls.take(tls.len() as int) =~= tls);
    }
    let ghost ts = drop_trailing_blank(tls);
    if kept == 0 {
        proof {
            if ts.len() != 0 {
                assert(join_lines(ts).len() >= 1);
            }
        }
        let mut r: Vec<char> = Vec::new();
        r.push('\n');
        assert(r@ =~= seq!['\n']);
        r
    } else {
        let r = vec_prefix(&out, kept);
        proof {
            if ts.len() == 0 {
                assert(join_lines(ts).len() == 0);
            }
        }
        r
    }
}

/// Normalizes `s`: every line loses its trailing whitespace, trailing blank
/// lines collapse, and every kept line ends in exactly one `'\n'`.
pub fn process_str(s: &str) -> (r: String)
    ensures
        r@ == normalize(s@),
{
    let chars = collect_chars(s);
    let normd = normalize_chars(&chars);
    chars_to_string(&normd)
}

} // verus!
