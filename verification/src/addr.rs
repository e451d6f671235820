//! Plain IP address values and the dotted-quad literal parser used to
//! decide whether a destination needs DNS resolution at all.

use vstd::prelude::*;
use crate::dns_name::{spec_labels, lemma_labels_leading, lemma_labels_nonempty};

verus! {

/// An IP address as plain bytes: four for IPv4, sixteen for IPv6.
#[derive(Clone, Copy, Debug, PartialEq, Eq)]
pub enum IpAddress {
    V4([u8; 4]),
    V6([u8; 16]),
}

impl IpAddress {
    /// Whether the address belongs to the IPv6 family.
    pub fn is_v6(&self) -> (r: bool)
        ensures
            r == (self is V6),
    {
        match self {
            IpAddress::V4(_) => false,
            IpAddress::V6(_) => true,
        }
    }
}

/// An ASCII decimal digit.
pub open spec fn is_dec_digit(c: u8) -> bool {
    48 <= c <= 57
}

/// The decimal value of a digit string, most significant first.
pub open spec fn octet_val(p: Seq<u8>) -> int
    decreases p.len(),
{
    if p.len() == 0 {
        0
    } else {
        octet_val(p.take(p.len() - 1)) * 10 + (p[p.len() - 1] - 48)
    }
}

/// A valid dotted-quad part: one to three decimal digits, no leading zero
/// unless the part is exactly "0", value at most 255.
pub open spec fn octet_valid(p: Seq<u8>) -> bool {
    &&& 1 <= p.len() <= 3
    &&& forall|i: int| 0 <= i < p.len() ==> is_dec_digit(#[trigger] p[i])
    &&& (p.len() > 1 ==> p[0] != 48)
    &&& octet_val(p) <= 255
}

/// What parsing `d` as an IPv4 dotted-quad literal yields: exactly four
/// valid parts split on dots, each an octet, or nothing.
pub open spec fn spec_parse_ipv4(d: Seq<u8>) -> Option<Seq<u8>> {
    let parts = spec_labels(d);
    if parts.len() == 4 && (forall|i: int| 0 <= i < 4 ==> octet_valid(#[trigger] parts[i])) {
        Some(
            seq![
                octet_val(parts[0]) as u8,
                octet_val(parts[1]) as u8,
                octet_val(parts[2]) as u8,
                octet_val(parts[3]) as u8,
            ],
        )
    } else {
        None
    }
}

/// Parses a dotted-quad IPv4 literal such as "127.0.0.1".
pub fn parse_ipv4_literal(d: &[u8]) -> (r: Option<IpAddress>)
    ensures
        match spec_parse_ipv4(d@) {
            Some(oct) => r is Some && r->Some_0 is V4 && r->Some_0->V4_0@ == oct,
            None => r is None,
        },
{
    let ghost dd = d@;
    let mut octs: Vec<u8> = Vec::new();
    let mut p: usize = 0;
    let ghost mut done: Seq<Seq<u8>> = Seq::empty();
    proof {
        assert(dd.skip(0) =~= dd);
        assert(done + spec_labels(dd) =~= spec_labels(dd));
    }
    loop
        invariant_except_break
            spec_labels(dd) == done + spec_labels(dd.skip(p as int)),
            done.len() <= 3,
        invariant
            dd == d@,
            0 <= p <= dd.len(),
            octs@.len() == done.len(),
            forall|k: int|
                0 <= k < done.len() ==> octet_valid(#[trigger] done[k]) && octs@[k] as int
                    == octet_val(done[k]),
        ensures
            spec_labels(dd) == done,
            done.len() == 4,
            octs@.len() == 4,
            forall|k: int|
                0 <= k < done.len() ==> octet_valid(#[trigger] done[k]) && octs@[k] as int
                    == octet_val(done[k]),
        decreases dd.len() - p,
    {
        let mut q: usize = p;
        while q < d.len() && d[q] != 46
            invariant
                dd == d@,
                p <= q <= dd.len(),
                forall|t: int| p <= t < q ==> dd[t] != 46,
            decreases dd.len() - q,
        {
            q = q + 1;
        }
        let ghost e = dd.skip(p as int);
        let ghost part = dd.subrange(p as int, q as int);
        proof {
            assert(forall|t: int| 0 <= t < (q - p) ==> e[t] != 46);
            if q < dd.len() {
                assert(e[(q - p) as int] == 46);
            }
            lemma_labels_leading(e, (q - p) as int);
            lemma_labels_nonempty(e);
            assert(e.take((q - p) as int) =~= part);
            if q == dd.len() {
                assert(e =~= part);
            }
            assert(spec_labels(e)[0] == part);
            assert(spec_labels(dd).len() == done.len() + spec_labels(e).len());
            assert(spec_labels(dd)[done.len() as int] == part);
        }
        // validate and evaluate the part
        if q - p == 0 || q - p > 3 {
            proof {
                assert(!octet_valid(part));
            }
            return None;
        }
        let mut j: usize = p;
        let mut all_digits: bool = true;
        while j < q
            invariant
                dd == d@,
                p <= j <= q <= dd.len(),
                all_digits <==> (forall|t: int| p <= t < j ==> is_dec_digit(#[trigger] dd[t])),
            decreases q - j,
        {
            let c = d[j];
            if c < 48 || c > 57 {
                all_digits = false;
            }
            j = j + 1;
        }
        proof {
            assert(forall|t: int| 0 <= t < part.len() ==> part[t] == dd[p + t]);
        }
        if !all_digits {
            proof {
                assert(exists|t: int| p <= t < q && !is_dec_digit(#[trigger] dd[t]));
                let t0 = choose|t: int| p <= t < q && !is_dec_digit(#[trigger] dd[t]);
                assert(part[t0 - p] == dd[t0]);
                assert(!octet_valid(part));
            }
            return None;
        }
        let mut value: u16 = 0;
        j = p;
        while j < q
            invariant
                dd == d@,
                p <= j <= q <= dd.len(),
                q - p <= 3,
                forall|t: int| p <= t < q ==> is_dec_digit(#[trigger] dd[t]),
                value as int == octet_val(dd.subrange(p as int, j as int)),
                j - p == 0 ==> value == 0,
                j - p == 1 ==> value <= 9,
                j - p == 2 ==> value <= 99,
                j - p == 3 ==> value <= 999,
            decreases q - j,
        {
            let c = d[j];
            proof {
                assert(is_dec_digit(dd[j as int]));
                assert(dd.subrange(p as int, j as int + 1).take(j - p as int) =~= dd.subrange(
                    p as int,
                    j as int,
                ));
                assert(dd.subrange(p as int, j as int + 1)[j - p as int] == dd[j as int]);
            }
            value = value * 10 + (c - 48) as u16;
            j = j + 1;
        }
        proof {
            assert(dd.subrange(p as int, q as int) =~= part);
        }
        if q - p > 1 && d[p] == 48 {
            proof {
                assert(part[0] == 48);
                assert(!octet_valid(part));
            }
            return None;
        }
        if value > 255 {
            proof {
                assert(!octet_valid(part));
            }
            return None;
        }
        proof {
            assert(octet_valid(part));
        }
        octs.push(value as u8);
        proof {
            done = done.push(part);
        }
        if q == d.len() {
            if octs.len() == 4 {
                proof {
                    assert(spec_labels(dd) =~= done);
                }
                break;
            }
            proof {
                assert(spec_labels(dd) =~= done);
                assert(spec_labels(dd).len() < 4);
                assert(spec_parse_ipv4(dd) is None);
            }
            return None;
        }
        if octs.len() == 4 {
            proof {
                assert(e.skip((q - p) as int + 1) =~= dd.skip(q as int + 1));
                lemma_labels_nonempty(dd.skip(q as int + 1));
                assert(spec_labels(dd).len() >= 5);
                assert(spec_parse_ipv4(dd) is None);
            }
            return None;
        }
        proof {
            assert(e.skip((q - p) as int + 1) =~= dd.skip(q as int + 1));
            assert(spec_labels(dd) =~= done + spec_labels(dd.skip(q as int + 1)));
        }
        p = q + 1;
    }
    let a = [octs[0], octs[1], octs[2], octs[3]];
    proof {
        assert(spec_parse_ipv4(dd) is Some);
        assert(a@ =~= spec_parse_ipv4(dd)->Some_0);
    }
    Some(IpAddress::V4(a))
}

} // verus!
