//! Nested packets of numbers and lists.
//!
//! A packet is written as a bracketed list whose elements are numbers or
//! further lists, as in `[1,[2,3],4]`.

use vstd::prelude::*;
use vstd::string::StringSliceAdditionalSpecFns;

verus! {

/// A packet: a number, or a list of packets.
#[derive(Debug)]
pub enum Packet {
    Number(u64),
    List(Vec<Packet>),
}

/// The mathematical shape of a packet: lists as sequences.
#[verifier::ext_equal]
pub enum PacketView {
    Number(u64),
    List(Seq<PacketView>),
}

impl Packet {
    /// The mathematical shape of this packet.
    pub open spec fn view(&self) -> PacketView
        decreases self,
        via Self::view_dec
    {
        match self {
            Packet::Number(n) => PacketView::Number(*n),
            Packet::List(v) => PacketView::List(views_of_vec(v@)),
        }
    }

    #[via_fn]
    proof fn view_dec(&self) {
        if let Packet::List(v) = self {
            assert(decreases_to!(self => v));
            assert(decreases_to!(v => v@));
            assert(decreases_to!(self => v@));
        }
    }
}

/// The shapes of a run of packets, in order.
pub open spec fn views_of_vec(s: Seq<Packet>) -> Seq<PacketView>
    decreases s,
    via views_of_vec_dec
{
    if s.len() == 0 {
        Seq::empty()
    } else {
        views_of_vec(s.drop_last()).push(s.last().view())
    }
}

#[via_fn]
proof fn views_of_vec_dec(s: Seq<Packet>) {
    if s.len() > 0 {
        assert(decreases_to!(s => s.subrange(0, s.len() - 1)));
        assert(s.drop_last() == s.subrange(0, s.len() - 1));
        assert(decreases_to!(s => s[s.len() - 1]));
        assert(s.last() == s[s.len() - 1]);
    }
}

/// The two shapes of a run agree entrywise.
pub proof fn lemma_views_of_vec(s: Seq<Packet>)
    ensures
        views_of_vec(s) == list_views(s),
    decreases s.len(),
{
    if s.len() > 0 {
        lemma_views_of_vec(s.drop_last());
        assert(forall|i: int|
            0 <= i < s.drop_last().len() ==> (#[trigger] s.drop_last()[i]) == s[i]);
        assert(list_views(s.drop_last()) =~= list_views(s).drop_last());
        assert(views_of_vec(s) =~= list_views(s));
    }
}

/// A pending number flushed onto the element list.
pub open spec fn flush_num(list: Seq<PacketView>, cur: Option<u64>) -> Seq<PacketView> {
    match cur {
        Some(n) => list.push(PacketView::Number(n)),
        None => list,
    }
}

/// Parse a packet at `pos`: an opening bracket and its list.  Nothing when
/// the text does not follow the grammar.
pub open spec fn spec_parse(b: Seq<u8>, pos: int) -> Option<(PacketView, int)>
    decreases b.len() - pos, 0int,
{
    if 0 <= pos < b.len() && b[pos] == ('[' as u8) {
        spec_parse_list(b, pos + 1, Seq::empty(), None)
    } else {
        None
    }
}

/// Parse list elements from `pos` to the closing bracket, with the
/// elements read so far and any number still being read.
pub open spec fn spec_parse_list(
    b: Seq<u8>,
    pos: int,
    list: Seq<PacketView>,
    cur: Option<u64>,
) -> Option<(PacketView, int)>
    decreases b.len() - pos, 1int,
{
    if pos < 0 || pos >= b.len() {
        None
    } else if b[pos] == (']' as u8) {
        Some((PacketView::List(flush_num(list, cur)), pos + 1))
    } else if b[pos] == ('[' as u8) {
        if cur is Some {
            None
        } else {
            match spec_parse(b, pos) {
                None => None,
                Some((sub, p2)) => if p2 <= pos || p2 > b.len() {
                    None
                } else {
                    spec_parse_list(b, p2, list.push(sub), None)
                },
            }
        }
    } else if b[pos] == (',' as u8) {
        spec_parse_list(b, pos + 1, flush_num(list, cur), None)
    } else if ('0' as u8) <= b[pos] <= ('9' as u8) {
        let d = (b[pos] - ('0' as u8)) as int;
        let base: int = match cur {
            Some(n) => n as int,
            None => 0,
        };
        if base * 10 + d > u64::MAX {
            None
        } else {
            spec_parse_list(b, pos + 1, list, Some((base * 10 + d) as u64))
        }
    } else {
        None
    }
}

/// Parse a packet at `pos`, reporting where it ended, or nothing when the
/// text does not follow the grammar from there.
fn parse_at(b: &[u8], pos: usize) -> (r: Option<(Packet, usize)>)
    requires
        pos <= b@.len(),
    ensures
        match r {
            Some(v) => spec_parse(b@, pos as int) == Some((v.0.view(), v.1 as int)) && pos < v.1
                <= b@.len(),
            None => spec_parse(b@, pos as int) is None,
        },
    decreases b@.len() - pos, 0int,
{
    if pos >= b.len() || b[pos] != ('[' as u8) {
        return None;
    }
    let mut list: Vec<Packet> = Vec::new();
    let mut cur: Option<u64> = None;
    let mut p = pos + 1;
    let ghost target = spec_parse_list(b@, pos + 1, Seq::empty(), None);
    proof {
        assert(list_views(list@) =~= Seq::<PacketView>::empty());
        assert(spec_parse(b@, pos as int) == target);
    }
    while p < b.len()
        invariant
            pos < p <= b@.len(),
            spec_parse(b@, pos as int) == target,
            spec_parse_list(b@, p as int, list_views(list@), cur) == target,
        decreases b@.len() - p,
    {
        let c = b[p];
        if c == (']' as u8) {
            let ghost before = list_views(list@);
            let out = match cur {
                Some(n) => {
                    list.push(Packet::Number(n));
                    proof {
                        assert(list_views(list@) =~= flush_num(before, cur));
                    }
                    list
                },
                None => list,
            };
            let ghost outv = out@;
            let r = Packet::List(out);
            proof {
                lemma_views_of_vec(outv);
                assert(r.view() == PacketView::List(flush_num(before, cur)));
            }
            return Some((r, p + 1));
        } else if c == ('[' as u8) {
            if cur.is_some() {
                return None;
            }
            match parse_at(b, p) {
                None => {
                    return None;
                },
                Some((sub, p2)) => {
                    let ghost before = list_views(list@);
                    let ghost subv = sub.view();
                    list.push(sub);
                    proof {
                        assert(list_views(list@) =~= before.push(subv));
                    }
                    p = p2;
                },
            }
        } else if c == (',' as u8) {
            let ghost before = list_views(list@);
            match cur {
                Some(n) => {
                    list.push(Packet::Number(n));
                    proof {
                        assert(list_views(list@) =~= flush_num(before, cur));
                    }
                },
                None => {},
            }
            cur = None;
            p = p + 1;
        } else if c >= ('0' as u8) && c <= ('9' as u8) {
            let d = (c - ('0' as u8)) as u64;
            let base = match cur {
                Some(n) => n,
                None => 0,
            };
            if base > (u64::MAX - d) / 10 {
                return None;
            }
            proof {
                assert(base * 10 + d <= u64::MAX) by (nonlinear_arith)
                    requires
                        base <= (u64::MAX - d) / 10,
                        d <= 9,
                        u64::MAX == (u64::MAX / 10) * 10 + u64::MAX % 10,
                ;
            }
            cur = Some(base * 10 + d);
            p = p + 1;
        } else {
            return None;
        }
    }
    None
}

impl Packet {
    /// Parse a packet from the start of the line, reporting where it
    /// ended.  The line must follow the grammar.
    pub fn parse(line: &str) -> (r: (Packet, usize))
        requires
            spec_parse(line.spec_bytes(), 0) is Some,
        ensures
            spec_parse(line.spec_bytes(), 0) == Some((r.0.view(), r.1 as int)),
    {
        let b = line.as_bytes();
        match parse_at(b, 0) {
            Some(v) => v,
            None => {
                proof {
                    assert(false);
                }
                (Packet::Number(0), 0)
            },
        }
    }
}

/// A pair of packet lines split at the first line break, each a packet.
pub open spec fn pair_split(b: Seq<u8>, k: int) -> bool {
    &&& 0 <= k < b.len()
    &&& b[k] == ('\n' as u8)
    &&& forall|t: int| 0 <= t < k ==> b[t] != ('\n' as u8)
    &&& spec_parse(b.subrange(0, k), 0) is Some
    &&& spec_parse(b.subrange(k + 1, b.len() as int), 0) is Some
}

/// Parse a pair of packets, one per line.
pub fn parse_pair(lines: &str) -> (r: (Packet, Packet))
    requires
        exists|k: int| pair_split(lines.spec_bytes(), k),
    ensures
        forall|k: int|
            pair_split(lines.spec_bytes(), k) ==> Some(r.0.view()) == spec_first(
                spec_parse(lines.spec_bytes().subrange(0, k), 0),
            ) && Some(r.1.view()) == spec_first(
                spec_parse(lines.spec_bytes().subrange(k + 1, lines.spec_bytes().len() as int), 0),
            ),
{
    let b = lines.as_bytes();
    let ghost k0 = choose|k: int| pair_split(b@, k);
    let mut k: usize = 0;
    while k < b.len() && b[k] != ('\n' as u8)
        invariant
            k <= b@.len(),
            b@ == lines.spec_bytes(),
            pair_split(b@, k0),
            forall|t: int| 0 <= t < k ==> b@[t] != ('\n' as u8),
        decreases b@.len() - k,
    {
        k += 1;
    }
    proof {
        assert(k < b@.len()) by {
            if k == b@.len() {
                assert(b@[k0] == ('\n' as u8));
            }
        }
        assert(k as int == k0) by {
            if (k as int) < k0 {
                assert(b@[k as int] != ('\n' as u8));
                assert(false) by {
                    assert(b@[k as int] == ('\n' as u8));
                }
            }
            if (k as int) > k0 {
                assert(b@[k0] != ('\n' as u8));
            }
        }
    }
    let mut first: Vec<u8> = Vec::new();
    let mut t: usize = 0;
    while t < k
        invariant
            t <= k,
            k < b@.len(),
            first@ =~= b@.subrange(0, t as int),
        decreases k - t,
    {
        first.push(b[t]);
        proof {
            assert(first@ =~= b@.subrange(0, t + 1));
        }
        t += 1;
    }
    let mut second: Vec<u8> = Vec::new();
    let mut t2 = k + 1;
    while t2 < b.len()
        invariant
            k + 1 <= t2 <= b@.len(),
            second@ =~= b@.subrange(k + 1, t2 as int),
        decreases b@.len() - t2,
    {
        second.push(b[t2]);
        proof {
            assert(second@ =~= b@.subrange(k + 1, t2 + 1));
        }
        t2 += 1;
    }
    proof {
        assert(first@ =~= b@.subrange(0, k as int));
        assert(second@ =~= b@.subrange(k + 1, b@.len() as int));
    }
    let p1 = match parse_at(first.as_slice(), 0) {
        Some(v) => v.0,
        None => {
            proof {
                assert(false);
            }
            Packet::Number(0)
        },
    };
    let p2 = match parse_at(second.as_slice(), 0) {
        Some(v) => v.0,
        None => {
            proof {
                assert(false);
            }
            Packet::Number(0)
        },
    };
    proof {
        assert forall|k2: int| pair_split(b@, k2) implies k2 == k0 by {
            if k2 < k0 {
                assert(b@[k2] == ('\n' as u8));
            }
            if k2 > k0 {
                assert(b@[k0] != ('\n' as u8));
            }
        }
    }
    (p1, p2)
}

/// The shapes of the packets in a list, in order.
pub open spec fn list_views(v: Seq<Packet>) -> Seq<PacketView> {
    Seq::new(v.len(), |i: int| v[i].view())
}

/// The packet of a parse result, without its end position.
pub open spec fn spec_first(r: Option<(PacketView, int)>) -> Option<PacketView> {
    match r {
        Some(v) => Some(v.0),
        None => None,
    }
}

/// The size of a packet shape: one for a number, one plus the elements'
/// sizes for a list.
pub open spec fn psize(p: PacketView) -> nat
    decreases p,
    via psize_dec
{
    match p {
        PacketView::Number(_) => 1,
        PacketView::List(l) => (1 + lsize(l)) as nat,
    }
}

/// The sizes of a run of packet shapes, summed.
pub open spec fn lsize(s: Seq<PacketView>) -> nat
    decreases s,
    via lsize_dec
{
    if s.len() == 0 {
        0
    } else {
        (lsize(s.drop_last()) + psize(s.last())) as nat
    }
}

#[via_fn]
proof fn psize_dec(p: PacketView) {
    if let PacketView::List(l) = p {
        assert(decreases_to!(p => l));
    }
}

#[via_fn]
proof fn lsize_dec(s: Seq<PacketView>) {
    if s.len() > 0 {
        assert(decreases_to!(s => s.subrange(0, s.len() - 1)));
        assert(s.drop_last() == s.subrange(0, s.len() - 1));
        assert(decreases_to!(s => s[s.len() - 1]));
        assert(s.last() == s[s.len() - 1]);
    }
}

/// A member's size is at most its run's.
proof fn lemma_psize_le_lsize(s: Seq<PacketView>, i: int)
    requires
        0 <= i < s.len(),
    ensures
        psize(s[i]) <= lsize(s),
    decreases s.len(),
{
    if i == s.len() - 1 {
        assert(s.last() == s[i]);
    } else {
        assert(s.drop_last()[i] == s[i]);
        lemma_psize_le_lsize(s.drop_last(), i);
    }
}

/// Dropping a run's first member drops exactly its size.
proof fn lemma_lsize_drop_first(s: Seq<PacketView>)
    requires
        s.len() > 0,
    ensures
        lsize(s.drop_first()) == lsize(s) - psize(s[0]),
    decreases s.len(),
{
    if s.len() == 1 {
        assert(s.drop_first() =~= Seq::<PacketView>::empty());
        assert(s.last() == s[0]);
        assert(lsize(s.drop_first()) == 0);
        assert(s.drop_last().len() == 0);
        assert(lsize(s.drop_last()) == 0);
        assert(lsize(s) == lsize(s.drop_last()) + psize(s.last()));
    } else {
        assert(s.drop_first().drop_last() =~= s.drop_last().drop_first());
        assert(s.drop_first().last() == s.last());
        assert(s.drop_last()[0] == s[0]);
        lemma_lsize_drop_first(s.drop_last());
        assert(s.drop_first().len() > 0);
        assert(lsize(s.drop_first()) == lsize(s.drop_first().drop_last()) + psize(
            s.drop_first().last(),
        ));
        assert(lsize(s) == lsize(s.drop_last()) + psize(s.last()));
    }
}

/// The order of two packets: numbers by value; a number against a list as
/// the one-element list of that number; lists element by element, a run
/// that ends first ordering lower.  Negative, zero and positive stand for
/// lower, equal and higher.
pub open spec fn spec_cmp(a: PacketView, b: PacketView) -> int
    decreases psize(a) + psize(b), 0int,
    via spec_cmp_dec
{
    match (a, b) {
        (PacketView::Number(x), PacketView::Number(y)) => if x < y {
            -1
        } else if x > y {
            1
        } else {
            0
        },
        (PacketView::Number(_), PacketView::List(l)) => if l.len() == 0 {
            1
        } else {
            let c = spec_cmp(a, l[0]);
            if c != 0 {
                c
            } else if l.len() == 1 {
                0
            } else {
                -1
            }
        },
        (PacketView::List(l), PacketView::Number(_)) => if l.len() == 0 {
            -1
        } else {
            let c = spec_cmp(l[0], b);
            if c != 0 {
                c
            } else if l.len() == 1 {
                0
            } else {
                1
            }
        },
        (PacketView::List(la), PacketView::List(lb)) => cmp_lists(la, lb),
    }
}

/// The order of two runs of packets, element by element.
pub open spec fn cmp_lists(x: Seq<PacketView>, y: Seq<PacketView>) -> int
    decreases lsize(x) + lsize(y), 1int,
    via cmp_lists_dec
{
    if x.len() == 0 && y.len() == 0 {
        0
    } else if x.len() == 0 {
        -1
    } else if y.len() == 0 {
        1
    } else {
        let c = spec_cmp(x[0], y[0]);
        if c != 0 {
            c
        } else {
            cmp_lists(x.drop_first(), y.drop_first())
        }
    }
}

#[via_fn]
proof fn spec_cmp_dec(a: PacketView, b: PacketView) {
    match (a, b) {
        (PacketView::Number(_), PacketView::List(l)) => {
            if l.len() > 0 {
                lemma_psize_le_lsize(l, 0);
            }
        },
        (PacketView::List(l), PacketView::Number(_)) => {
            if l.len() > 0 {
                lemma_psize_le_lsize(l, 0);
            }
        },
        _ => {},
    }
}

#[via_fn]
proof fn cmp_lists_dec(x: Seq<PacketView>, y: Seq<PacketView>) {
    if x.len() > 0 && y.len() > 0 {
        lemma_psize_le_lsize(x, 0);
        lemma_psize_le_lsize(y, 0);
        lemma_lsize_drop_first(x);
        lemma_lsize_drop_first(y);
    }
}

/// The order of two packets, computed: a negative, zero or positive mark
/// for lower, equal or higher.
pub fn packet_cmp(a: &Packet, b: &Packet) -> (r: i8)
    ensures
        r as int == spec_cmp(a.view(), b.view()),
    decreases psize(a.view()) + psize(b.view()), 0int,
{
    match (a, b) {
        (Packet::Number(x), Packet::Number(y)) => {
            if x < y {
                -1
            } else if x > y {
                1
            } else {
                0
            }
        },
        (Packet::Number(_), Packet::List(l)) => {
            proof {
                lemma_views_of_vec(l@);
            }
            if l.len() == 0 {
                1
            } else {
                proof {
                    lemma_psize_le_lsize(views_of_vec(l@), 0);
                    assert(views_of_vec(l@)[0] == l@[0].view());
                }
                let c = packet_cmp(a, &l[0]);
                if c != 0 {
                    c
                } else if l.len() == 1 {
                    0
                } else {
                    -1
                }
            }
        },
        (Packet::List(l), Packet::Number(_)) => {
            proof {
                lemma_views_of_vec(l@);
            }
            if l.len() == 0 {
                -1
            } else {
                proof {
                    lemma_psize_le_lsize(views_of_vec(l@), 0);
                    assert(views_of_vec(l@)[0] == l@[0].view());
                }
                let c = packet_cmp(&l[0], b);
                if c != 0 {
                    c
                } else if l.len() == 1 {
                    0
                } else {
                    1
                }
            }
        },
        (Packet::List(x), Packet::List(y)) => {
            let ghost xv = views_of_vec(x@);
            let ghost yv = views_of_vec(y@);
            proof {
                lemma_views_of_vec(x@);
                lemma_views_of_vec(y@);
                assert(xv.skip(0) =~= xv);
                assert(yv.skip(0) =~= yv);
            }
            let mut i: usize = 0;
            while i < x.len() && i < y.len()
                invariant
                    i <= x@.len(),
                    i <= y@.len(),
                    xv == views_of_vec(x@),
                    yv == views_of_vec(y@),
                    xv.len() == x@.len(),
                    yv.len() == y@.len(),
                    forall|k: int| 0 <= k < xv.len() ==> (#[trigger] xv[k]) == x@[k].view(),
                    forall|k: int| 0 <= k < yv.len() ==> (#[trigger] yv[k]) == y@[k].view(),
                    psize(a.view()) == 1 + lsize(xv),
                    psize(b.view()) == 1 + lsize(yv),
                    spec_cmp(a.view(), b.view()) == cmp_lists(xv, yv),
                    cmp_lists(xv.skip(i as int), yv.skip(i as int)) == cmp_lists(xv, yv),
                decreases x@.len() - i,
            {
                proof {
                    lemma_psize_le_lsize(xv, i as int);
                    lemma_psize_le_lsize(yv, i as int);
                }
                let c = packet_cmp(&x[i], &y[i]);
                proof {
                    assert(xv.skip(i as int)[0] == xv[i as int]);
                    assert(yv.skip(i as int)[0] == yv[i as int]);
                    assert(xv.skip(i as int).drop_first() =~= xv.skip(i + 1));
                    assert(yv.skip(i as int).drop_first() =~= yv.skip(i + 1));
                }
                if c != 0 {
                    return c;
                }
                i += 1;
            }
            proof {
                if i == x@.len() {
                    assert(xv.skip(i as int).len() == 0);
                } else {
                    assert(yv.skip(i as int).len() == 0);
                }
            }
            if x.len() == y.len() {
                0
            } else if x.len() < y.len() {
                -1
            } else {
                1
            }
        },
    }
}

} // verus!
