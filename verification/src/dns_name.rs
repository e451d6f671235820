//! DNS domain-name label codec: splitting a dotted name into labels,
//! length-prefixed wire encoding, and the decoding used for answer names,
//! with the round-trip law connecting them.

use vstd::prelude::*;

verus! {

/// The labels of a dotted name: `d` split on `.` (byte 46). A name with no
/// dot is one label; every dot separates two labels, so the result is never
/// empty and empty labels are kept.
pub open spec fn spec_labels(d: Seq<u8>) -> Seq<Seq<u8>>
    decreases d.len(),
{
    if d.len() == 0 {
        seq![Seq::<u8>::empty()]
    } else if d[0] == 46 {
        seq![Seq::<u8>::empty()] + spec_labels(d.drop_first())
    } else {
        let rest = spec_labels(d.drop_first());
        seq![seq![d[0]] + rest[0]] + rest.drop_first()
    }
}

/// Labels joined back into a dotted name.
pub open spec fn spec_join(ls: Seq<Seq<u8>>) -> Seq<u8>
    decreases ls.len(),
{
    if ls.len() == 0 {
        Seq::empty()
    } else if ls.len() == 1 {
        ls[0]
    } else {
        ls[0] + seq![46u8] + spec_join(ls.drop_first())
    }
}

/// The wire form of a label list: each label as `<length byte><bytes>`,
/// without the terminating zero byte.
pub open spec fn spec_wire(ls: Seq<Seq<u8>>) -> Seq<u8>
    decreases ls.len(),
{
    if ls.len() == 0 {
        Seq::empty()
    } else {
        seq![ls[0].len() as u8] + ls[0] + spec_wire(ls.drop_first())
    }
}

/// The full wire encoding of a dotted name: its labels, then a zero byte.
pub open spec fn spec_encoded_name(d: Seq<u8>) -> Seq<u8> {
    spec_wire(spec_labels(d)) + seq![0u8]
}

/// Parsing a zero-free label region back into labels: `None` when a length
/// byte runs past the end of the region.
pub open spec fn spec_parse_labels(r: Seq<u8>) -> Option<Seq<Seq<u8>>>
    decreases r.len(),
{
    if r.len() == 0 {
        Some(Seq::empty())
    } else {
        let l = r[0] as int;
        if 1 + l > r.len() {
            None
        } else {
            match spec_parse_labels(r.skip(1 + l)) {
                None => None,
                Some(rest) => Some(seq![r.subrange(1, 1 + l)] + rest),
            }
        }
    }
}

/// The index of the first zero byte of `b` at or after `off`.
pub open spec fn first_zero_from(b: Seq<u8>, off: int) -> Option<int>
    decreases b.len() - off,
{
    if !(0 <= off < b.len()) {
        None
    } else if b[off] == 0 {
        Some(off)
    } else {
        first_zero_from(b, off + 1)
    }
}

/// What decoding a name at `off` in `b` yields: scan to the first zero byte,
/// parse the region before it as length-prefixed labels, join with dots.
/// `None` when no zero byte follows or a label overruns the region.
pub open spec fn spec_name_at(b: Seq<u8>, off: int) -> Option<Seq<u8>> {
    match first_zero_from(b, off) {
        None => None,
        Some(z) => match spec_parse_labels(b.subrange(off, z)) {
            None => None,
            Some(ls) => Some(spec_join(ls)),
        },
    }
}

/// Every label of `d` fits the one length byte of the wire form.
pub open spec fn labels_fit(d: Seq<u8>) -> bool {
    forall|i: int| 0 <= i < spec_labels(d).len() ==> (#[trigger] spec_labels(d)[i]).len() <= 255
}

/// A dotted name whose encoding decodes back to itself: every label is
/// nonempty (no leading, trailing or doubled dot), fits its length byte,
/// and holds no zero byte.
pub open spec fn valid_domain_name(d: Seq<u8>) -> bool {
    forall|i: int|
        0 <= i < spec_labels(d).len() ==> {
            &&& 1 <= (#[trigger] spec_labels(d)[i]).len() <= 255
            &&& forall|j: int| 0 <= j < spec_labels(d)[i].len() ==> spec_labels(d)[i][j] != 0
        }
}

pub proof fn lemma_labels_nonempty(d: Seq<u8>)
    ensures
        spec_labels(d).len() >= 1,
    decreases d.len(),
{
    if d.len() != 0 && d[0] != 46 {
        lemma_labels_nonempty(d.drop_first());
    }
}

/// Joining the labels of a dotted name gives back the name.
pub proof fn lemma_join_labels(d: Seq<u8>)
    ensures
        spec_join(spec_labels(d)) == d,
    decreases d.len(),
{
    if d.len() == 0 {
        assert(spec_join(spec_labels(d)) =~= d);
    } else if d[0] == 46 {
        lemma_join_labels(d.drop_first());
        let ls = spec_labels(d);
        lemma_labels_nonempty(d.drop_first());
        assert(ls.drop_first() =~= spec_labels(d.drop_first()));
        assert(spec_join(ls) =~= d);
    } else {
        lemma_join_labels(d.drop_first());
        let rest = spec_labels(d.drop_first());
        lemma_labels_nonempty(d.drop_first());
        let ls = spec_labels(d);
        if rest.len() == 1 {
            assert(ls =~= seq![seq![d[0]] + rest[0]]);
            assert(spec_join(ls) == seq![d[0]] + rest[0]);
            assert(spec_join(rest) == rest[0]);
            assert(spec_join(ls) =~= d);
        } else {
            assert(ls[0] == seq![d[0]] + rest[0]);
            assert(ls.drop_first() =~= rest.drop_first());
            assert(spec_join(ls) == ls[0] + seq![46u8] + spec_join(rest.drop_first()));
            assert(spec_join(rest) == rest[0] + seq![46u8] + spec_join(rest.drop_first()));
            assert(spec_join(ls) =~= seq![d[0]] + spec_join(rest));
            assert(spec_join(ls) =~= d);
        }
    }
}

/// Parsing the wire form of labels that fit their length bytes gives back
/// exactly those labels.
pub proof fn lemma_parse_wire(ls: Seq<Seq<u8>>)
    requires
        forall|i: int| 0 <= i < ls.len() ==> (#[trigger] ls[i]).len() <= 255,
    ensures
        spec_parse_labels(spec_wire(ls)) == Some(ls),
    decreases ls.len(),
{
    if ls.len() == 0 {
        assert(spec_wire(ls) =~= Seq::<u8>::empty());
        assert(spec_parse_labels(spec_wire(ls)) == Some(ls)) by {
            assert(Seq::<Seq<u8>>::empty() =~= ls);
        }
    } else {
        let w = spec_wire(ls);
        let l0 = ls[0];
        assert(l0.len() <= 255);
        assert(w[0] == l0.len() as u8);
        assert(w[0] as int == l0.len() as int);
        assert(w.len() == 1 + l0.len() + spec_wire(ls.drop_first()).len());
        assert(w.subrange(1, 1 + l0.len() as int) =~= l0);
        assert(w.skip(1 + l0.len() as int) =~= spec_wire(ls.drop_first()));
        lemma_parse_wire(ls.drop_first());
        assert(seq![l0] + ls.drop_first() =~= ls);
    }
}

/// The wire form of nonempty, zero-free labels holds no zero byte.
pub proof fn lemma_wire_zero_free(ls: Seq<Seq<u8>>)
    requires
        forall|i: int|
            0 <= i < ls.len() ==> {
                &&& 1 <= (#[trigger] ls[i]).len() <= 255
                &&& forall|j: int| 0 <= j < ls[i].len() ==> ls[i][j] != 0
            },
    ensures
        forall|p: int| 0 <= p < spec_wire(ls).len() ==> #[trigger] spec_wire(ls)[p] != 0,
    decreases ls.len(),
{
    if ls.len() > 0 {
        lemma_wire_zero_free(ls.drop_first());
        let w = spec_wire(ls);
        let l0 = ls[0];
        assert forall|p: int| 0 <= p < w.len() implies #[trigger] w[p] != 0 by {
            if p == 0 {
                assert(w[0] == l0.len() as u8);
            } else if p < 1 + l0.len() {
                assert(w[p] == l0[p - 1]);
            } else {
                assert(w[p] == spec_wire(ls.drop_first())[p - 1 - l0.len()]);
            }
        }
    }
}

/// A dot-free stretch at the front of `e` is its first label: up to the
/// first dot (or the end), `e` splits as that stretch plus the rest.
pub proof fn lemma_labels_leading(e: Seq<u8>, j: int)
    requires
        0 <= j <= e.len(),
        forall|t: int| 0 <= t < j ==> e[t] != 46,
        j < e.len() ==> e[j] == 46,
    ensures
        j == e.len() ==> spec_labels(e) == seq![e],
        j < e.len() ==> spec_labels(e) == seq![e.take(j)] + spec_labels(e.skip(j + 1)),
    decreases e.len(),
{
    if j == 0 {
        if e.len() == 0 {
            assert(spec_labels(e) =~~= seq![e]);
        } else {
            assert(e[0] == 46);
            assert(e.take(0) =~= Seq::<u8>::empty());
            assert(e.skip(1) =~= e.drop_first());
            assert(spec_labels(e) =~= seq![e.take(0)] + spec_labels(e.skip(1)));
        }
    } else {
        let e1 = e.drop_first();
        lemma_labels_leading(e1, j - 1);
        lemma_labels_nonempty(e1);
        let r = spec_labels(e1);
        if j == e.len() {
            assert(r == seq![e1]);
            assert(spec_labels(e) =~= seq![seq![e[0]] + e1]);
            assert(seq![e[0]] + e1 =~= e);
        } else {
            assert(r == seq![e1.take(j - 1)] + spec_labels(e1.skip(j)));
            assert(r[0] == e1.take(j - 1));
            assert(r.drop_first() =~= spec_labels(e1.skip(j)));
            assert(e1.skip(j) =~= e.skip(j + 1));
            assert(seq![e[0]] + e1.take(j - 1) =~= e.take(j));
            assert(spec_labels(e) =~= seq![e.take(j)] + spec_labels(e.skip(j + 1)));
        }
    }
}

/// Appending a label extends the wire form by its length byte and bytes.
pub proof fn lemma_wire_push(ls: Seq<Seq<u8>>, l: Seq<u8>)
    ensures
        spec_wire(ls.push(l)) == spec_wire(ls) + seq![l.len() as u8] + l,
    decreases ls.len(),
{
    if ls.len() == 0 {
        assert(ls.push(l).drop_first() =~= ls);
        assert(ls.push(l)[0] == l);
        assert(spec_wire(ls.push(l)) == seq![l.len() as u8] + l + spec_wire(ls));
        assert(spec_wire(ls) == Seq::<u8>::empty());
        assert(spec_wire(ls.push(l)) =~= spec_wire(ls) + seq![l.len() as u8] + l);
    } else {
        assert(ls.push(l).drop_first() =~= ls.drop_first().push(l));
        assert(ls.push(l)[0] == ls[0]);
        assert(spec_wire(ls.push(l)) == seq![ls[0].len() as u8] + ls[0] + spec_wire(
            ls.drop_first().push(l),
        ));
        lemma_wire_push(ls.drop_first(), l);
        assert(spec_wire(ls) == seq![ls[0].len() as u8] + ls[0] + spec_wire(ls.drop_first()));
        assert(spec_wire(ls.push(l)) =~= spec_wire(ls) + seq![l.len() as u8] + l);
    }
}

pub(crate) proof fn lemma_first_zero_skip(b: Seq<u8>, off: int, z: int)
    requires
        0 <= off <= z <= b.len(),
        forall|p: int| off <= p < z ==> b[p] != 0,
    ensures
        first_zero_from(b, off) == first_zero_from(b, z),
    decreases z - off,
{
    if off < z {
        lemma_first_zero_skip(b, off + 1, z);
    }
}

/// Appending a label to a joined name inserts a dot unless it is the first.
pub proof fn lemma_join_push(ls: Seq<Seq<u8>>, l: Seq<u8>)
    ensures
        spec_join(ls.push(l)) == if ls.len() == 0 {
            l
        } else {
            spec_join(ls) + seq![46u8] + l
        },
    decreases ls.len(),
{
    if ls.len() == 0 {
        assert(ls.push(l)[0] == l);
    } else if ls.len() == 1 {
        assert(ls.push(l).drop_first() =~= seq![l]);
        assert(spec_join(seq![l]) == l);
        assert(spec_join(ls.push(l)) == ls[0] + seq![46u8] + l);
        assert(spec_join(ls) == ls[0]);
    } else {
        assert(ls.push(l).drop_first() =~= ls.drop_first().push(l));
        assert(ls.push(l)[0] == ls[0]);
        lemma_join_push(ls.drop_first(), l);
        assert(spec_join(ls.push(l)) == ls[0] + seq![46u8] + (spec_join(ls.drop_first()) + seq![46u8]
            + l));
        assert(spec_join(ls) == ls[0] + seq![46u8] + spec_join(ls.drop_first()));
        assert(spec_join(ls.push(l)) =~= spec_join(ls) + seq![46u8] + l);
    }
}

/// Decoding the encoding of a valid dotted name, at offset 0, gives back the
/// name: the label-sequence round trip.
pub proof fn lemma_domain_round_trip(d: Seq<u8>)
    requires
        valid_domain_name(d),
    ensures
        spec_name_at(spec_encoded_name(d), 0) == Some(d),
{
    let ls = spec_labels(d);
    let w = spec_wire(ls);
    let e = spec_encoded_name(d);
    lemma_wire_zero_free(ls);
    assert(e[w.len() as int] == 0);
    assert(forall|p: int| 0 <= p < w.len() ==> #[trigger] e[p] != 0);
    lemma_first_zero_skip(e, 0, w.len() as int);
    assert(first_zero_from(e, w.len() as int) == Some(w.len() as int));
    assert(first_zero_from(e, 0) == Some(w.len() as int));
    assert(e.subrange(0, w.len() as int) =~= w);
    lemma_parse_wire(ls);
    lemma_join_labels(d);
}

} // verus!
