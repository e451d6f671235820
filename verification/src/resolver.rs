//! Parsing resolver configuration text: the address token of every line
//! that begins with the `nameserver` keyword, in file order. Reading the
//! file itself is the caller's I/O; this is the rule applied to its bytes.

use vstd::prelude::*;

verus! {

/// ASCII whitespace, as a token separator.
pub open spec fn is_ws(c: u8) -> bool {
    c == 32 || (9 <= c <= 13)
}

/// The lines of `s`: `s` split on newline (byte 10); the split never yields
/// an empty list, and a trailing newline yields a final empty line.
pub open spec fn spec_split_lines(s: Seq<u8>) -> Seq<Seq<u8>>
    decreases s.len(),
{
    if s.len() == 0 {
        seq![Seq::<u8>::empty()]
    } else if s[0] == 10 {
        seq![Seq::<u8>::empty()] + spec_split_lines(s.drop_first())
    } else {
        let rest = spec_split_lines(s.drop_first());
        seq![seq![s[0]] + rest[0]] + rest.drop_first()
    }
}

/// A line with one trailing carriage return removed.
pub open spec fn strip_cr(l: Seq<u8>) -> Seq<u8> {
    if l.len() > 0 && l[l.len() - 1] == 13 {
        l.take(l.len() - 1)
    } else {
        l
    }
}

/// The bytes of the `nameserver` keyword.
pub open spec fn ns_keyword() -> Seq<u8> {
    seq![110u8, 97u8, 109u8, 101u8, 115u8, 101u8, 114u8, 118u8, 101u8, 114u8]
}

/// A line that contributes: it begins with the `nameserver` keyword.
pub open spec fn line_selected(l: Seq<u8>) -> bool {
    l.len() >= 10 && l.subrange(0, 10) == ns_keyword()
}

/// The first index at or after `i` holding a non-whitespace byte, or the
/// line's length.
pub open spec fn skip_ws(l: Seq<u8>, i: int) -> int
    decreases l.len() - i,
{
    if !(0 <= i < l.len()) {
        l.len() as int
    } else if is_ws(l[i]) {
        skip_ws(l, i + 1)
    } else {
        i
    }
}

/// The first index at or after `i` holding a whitespace byte, or the line's
/// length.
pub open spec fn end_tok(l: Seq<u8>, i: int) -> int
    decreases l.len() - i,
{
    if !(0 <= i < l.len()) {
        l.len() as int
    } else if is_ws(l[i]) {
        i
    } else {
        end_tok(l, i + 1)
    }
}

/// The second whitespace-separated token of a line, if it has one.
pub open spec fn second_token(l: Seq<u8>) -> Option<Seq<u8>> {
    let a = skip_ws(l, 0);
    let b = end_tok(l, a);
    let c = skip_ws(l, b);
    if c >= l.len() {
        None
    } else {
        Some(l.subrange(c, end_tok(l, c)))
    }
}

/// What one raw line contributes: its second token, when the line (after
/// carriage-return stripping) begins with the keyword and has one.
pub open spec fn line_contribution(raw: Seq<u8>) -> Seq<Seq<u8>> {
    let l = strip_cr(raw);
    if line_selected(l) {
        match second_token(l) {
            Some(t) => seq![t],
            None => Seq::empty(),
        }
    } else {
        Seq::empty()
    }
}

/// The contributions of a list of raw lines, in order.
pub open spec fn spec_ns_of_lines(ls: Seq<Seq<u8>>) -> Seq<Seq<u8>>
    decreases ls.len(),
{
    if ls.len() == 0 {
        Seq::empty()
    } else {
        line_contribution(ls[0]) + spec_ns_of_lines(ls.drop_first())
    }
}

/// The nameserver addresses of a configuration file's bytes, in file order.
pub open spec fn spec_nameservers(s: Seq<u8>) -> Seq<Seq<u8>> {
    spec_ns_of_lines(spec_split_lines(s))
}

pub proof fn lemma_lines_nonempty(s: Seq<u8>)
    ensures
        spec_split_lines(s).len() >= 1,
    decreases s.len(),
{
    if s.len() != 0 && s[0] != 10 {
        lemma_lines_nonempty(s.drop_first());
    }
}

/// A newline-free stretch at the front of `s` is its first line.
pub proof fn lemma_lines_leading(s: Seq<u8>, j: int)
    requires
        0 <= j <= s.len(),
        forall|t: int| 0 <= t < j ==> s[t] != 10,
        j < s.len() ==> s[j] == 10,
    ensures
        j == s.len() ==> spec_split_lines(s) == seq![s],
        j < s.len() ==> spec_split_lines(s) == seq![s.take(j)] + spec_split_lines(s.skip(j + 1)),
    decreases s.len(),
{
    if j == 0 {
        if s.len() == 0 {
            assert(spec_split_lines(s) =~~= seq![s]);
        } else {
            assert(s[0] == 10);
            assert(s.take(0) =~= Seq::<u8>::empty());
            assert(s.skip(1) =~= s.drop_first());
            assert(spec_split_lines(s) =~= seq![s.take(0)] + spec_split_lines(s.skip(1)));
        }
    } else {
        let s1 = s.drop_first();
        lemma_lines_leading(s1, j - 1);
        lemma_lines_nonempty(s1);
        let r = spec_split_lines(s1);
        if j == s.len() {
            assert(r == seq![s1]);
            assert(spec_split_lines(s) =~= seq![seq![s[0]] + s1]);
            assert(seq![s[0]] + s1 =~= s);
        } else {
            assert(r == seq![s1.take(j - 1)] + spec_split_lines(s1.skip(j)));
            assert(r[0] == s1.take(j - 1));
            assert(r.drop_first() =~= spec_split_lines(s1.skip(j)));
            assert(s1.skip(j) =~= s.skip(j + 1));
            assert(seq![s[0]] + s1.take(j - 1) =~= s.take(j));
            assert(spec_split_lines(s) =~= seq![s.take(j)] + spec_split_lines(s.skip(j + 1)));
        }
    }
}

/// Appending a raw line appends its contribution.
pub proof fn lemma_ns_lines_push(ls: Seq<Seq<u8>>, l: Seq<u8>)
    ensures
        spec_ns_of_lines(ls.push(l)) == spec_ns_of_lines(ls) + line_contribution(l),
    decreases ls.len(),
{
    if ls.len() == 0 {
        assert(ls.push(l)[0] == l);
        assert(ls.push(l).drop_first() =~= ls);
        assert(spec_ns_of_lines(ls.push(l)) == line_contribution(l) + spec_ns_of_lines(ls));
        assert(spec_ns_of_lines(ls.push(l)) =~= spec_ns_of_lines(ls) + line_contribution(l));
    } else {
        assert(ls.push(l).drop_first() =~= ls.drop_first().push(l));
        assert(ls.push(l)[0] == ls[0]);
        lemma_ns_lines_push(ls.drop_first(), l);
        assert(spec_ns_of_lines(ls.push(l)) == line_contribution(ls[0]) + (spec_ns_of_lines(
            ls.drop_first(),
        ) + line_contribution(l)));
        assert(spec_ns_of_lines(ls) == line_contribution(ls[0]) + spec_ns_of_lines(ls.drop_first()));
        assert(spec_ns_of_lines(ls.push(l)) =~= spec_ns_of_lines(ls) + line_contribution(l));
    }
}

/// The views of a vector of byte vectors.
pub open spec fn byte_vec_models(v: Seq<Vec<u8>>) -> Seq<Seq<u8>> {
    v.map_values(|x: Vec<u8>| x@)
}

/// Whether the line `content[p..le]` begins with the `nameserver` keyword.
fn matches_keyword(content: &[u8], p: usize, le: usize) -> (r: bool)
    requires
        p <= le <= content@.len(),
    ensures
        r == line_selected(content@.subrange(p as int, le as int)),
{
    let ghost l = content@.subrange(p as int, le as int);
    proof {
        assert(ns_keyword()[0] == 110);
        assert(ns_keyword()[1] == 97);
        assert(ns_keyword()[2] == 109);
        assert(ns_keyword()[3] == 101);
        assert(ns_keyword()[4] == 115);
        assert(ns_keyword()[5] == 101);
        assert(ns_keyword()[6] == 114);
        assert(ns_keyword()[7] == 118);
        assert(ns_keyword()[8] == 101);
        assert(ns_keyword()[9] == 114);
    }
    if le - p < 10 {
        return false;
    }
    let mut k: usize = 0;
    while k < 10
        invariant
            0 <= k <= 10,
            p + 10 <= le <= content@.len(),
            l == content@.subrange(p as int, le as int),
            forall|t: int| 0 <= t < k ==> l.subrange(0, 10)[t] == ns_keyword()[t],
        decreases 10 - k,
    {
        let want: u8 = if k == 0 {
            110
        } else if k == 1 {
            97
        } else if k == 2 {
            109
        } else if k == 3 {
            101
        } else if k == 4 {
            115
        } else if k == 5 {
            101
        } else if k == 6 {
            114
        } else if k == 7 {
            118
        } else if k == 8 {
            101
        } else {
            114
        };
        proof {
            assert(want == ns_keyword()[k as int]);
            assert(l.subrange(0, 10)[k as int] == content@[p + k]);
        }
        if content[p + k] != want {
            proof {
                if line_selected(l) {
                    assert(l.subrange(0, 10) == ns_keyword());
                    assert(false);
                }
            }
            return false;
        }
        k = k + 1;
    }
    proof {
        assert(l.subrange(0, 10) =~= ns_keyword());
    }
    true
}

/// Collects, in file order, the address token of every configuration line
/// beginning with the `nameserver` keyword; a keyword line with no second
/// token contributes nothing.
#[verifier::rlimit(60)]
pub fn nameservers(content: &[u8]) -> (r: Vec<Vec<u8>>)
    ensures
        byte_vec_models(r@) == spec_nameservers(content@),
{
    let ghost s = content@;
    let mut out: Vec<Vec<u8>> = Vec::new();
    let mut p: usize = 0;
    let ghost mut done: Seq<Seq<u8>> = Seq::empty();
    proof {
        assert(s.skip(0) =~= s);
        assert(done + spec_split_lines(s) =~= spec_split_lines(s));
        assert(byte_vec_models(out@) =~= spec_ns_of_lines(done));
    }
    loop
        invariant_except_break
            spec_split_lines(s) == done + spec_split_lines(s.skip(p as int)),
        invariant
            s == content@,
            0 <= p <= s.len(),
            byte_vec_models(out@) == spec_ns_of_lines(done),
        ensures
            spec_split_lines(s) == done,
            byte_vec_models(out@) == spec_ns_of_lines(done),
        decreases s.len() - p,
    {
        let mut q: usize = p;
        while q < content.len() && content[q] != 10
            invariant
                s == content@,
                p <= q <= s.len(),
                forall|t: int| p <= t < q ==> s[t] != 10,
            decreases s.len() - q,
        {
            q = q + 1;
        }
        let ghost e = s.skip(p as int);
        let ghost raw = s.subrange(p as int, q as int);
        proof {
            assert(forall|t: int| 0 <= t < (q - p) ==> e[t] != 10);
            if q < s.len() {
                assert(e[(q - p) as int] == 10);
            }
            lemma_lines_leading(e, (q - p) as int);
            assert(e.take((q - p) as int) =~= raw);
            if q == s.len() {
                assert(e =~= raw);
            }
        }
        // strip one trailing carriage return
        let le: usize = if q > p && content[q - 1] == 13 {
            q - 1
        } else {
            q
        };
        let ghost l = strip_cr(raw);
        proof {
            assert(s.subrange(p as int, le as int) =~= l);
        }
        // does the line begin with the `nameserver` keyword?
        let selected: bool = matches_keyword(content, p, le);
        if selected {
            // the keyword is the first token; find the second
            let mut a: usize = p;
            while a < le && (content[a] == 32 || (9 <= content[a] && content[a] <= 13))
                invariant
                    s == content@,
                    p <= a <= le <= s.len(),
                    l == s.subrange(p as int, le as int),
                    skip_ws(l, 0) == skip_ws(l, a - p),
                decreases le - a,
            {
                a = a + 1;
            }
            let mut b: usize = a;
            while b < le && !(content[b] == 32 || (9 <= content[b] && content[b] <= 13))
                invariant
                    s == content@,
                    p <= a <= b <= le <= s.len(),
                    l == s.subrange(p as int, le as int),
                    end_tok(l, a - p) == end_tok(l, b - p),
                decreases le - b,
            {
                b = b + 1;
            }
            let mut c: usize = b;
            while c < le && (content[c] == 32 || (9 <= content[c] && content[c] <= 13))
                invariant
                    s == content@,
                    p <= b <= c <= le <= s.len(),
                    l == s.subrange(p as int, le as int),
                    skip_ws(l, b - p) == skip_ws(l, c - p),
                decreases le - c,
            {
                c = c + 1;
            }
            proof {
                assert(skip_ws(l, 0) == a - p);
                assert(end_tok(l, a - p) == b - p);
                assert(skip_ws(l, b - p) == c - p);
            }
            if c < le {
                let mut dend: usize = c;
                while dend < le && !(content[dend] == 32 || (9 <= content[dend] && content[dend]
                    <= 13))
                    invariant
                        s == content@,
                        p <= c <= dend <= le <= s.len(),
                        l == s.subrange(p as int, le as int),
                        end_tok(l, c - p) == end_tok(l, dend - p),
                    decreases le - dend,
                {
                    dend = dend + 1;
                }
                proof {
                    assert(end_tok(l, c - p) == dend - p);
                }
                let mut tok: Vec<u8> = Vec::new();
                let mut k: usize = c;
                while k < dend
                    invariant
                        s == content@,
                        c <= k <= dend <= s.len(),
                        tok@ == s.subrange(c as int, k as int),
                    decreases dend - k,
                {
                    tok.push(content[k]);
                    proof {
                        assert(tok@ =~= s.subrange(c as int, k as int + 1));
                    }
                    k = k + 1;
                }
                proof {
                    assert(l.subrange(c - p, dend - p) =~= s.subrange(c as int, dend as int));
                    assert(second_token(l) == Some(s.subrange(c as int, dend as int)));
                    assert(line_contribution(raw) =~= seq![tok@]);
                    lemma_ns_lines_push(done, raw);
                    assert(byte_vec_models(out@.push(tok)) =~= byte_vec_models(out@).push(tok@));
                    assert(spec_ns_of_lines(done.push(raw)) =~= byte_vec_models(out@).push(tok@));
                }
                out.push(tok);
                proof {
                    done = done.push(raw);
                }
            } else {
                proof {
                    assert(second_token(l) is None);
                    assert(line_contribution(raw) =~= Seq::<Seq<u8>>::empty());
                    lemma_ns_lines_push(done, raw);
                    assert(spec_ns_of_lines(done.push(raw)) =~= spec_ns_of_lines(done));
                    done = done.push(raw);
                }
            }
        } else {
            proof {
                assert(line_contribution(raw) =~= Seq::<Seq<u8>>::empty());
                lemma_ns_lines_push(done, raw);
                assert(spec_ns_of_lines(done.push(raw)) =~= spec_ns_of_lines(done));
                done = done.push(raw);
            }
        }
        if q == content.len() {
            proof {
                assert(spec_split_lines(s) =~= done);
            }
            break;
        }
        proof {
            assert(e.skip((q - p) as int + 1) =~= s.skip(q as int + 1));
            assert(spec_split_lines(s) =~= done + spec_split_lines(s.skip(q as int + 1)));
        }
        p = q + 1;
    }
    out
}

} // verus!
