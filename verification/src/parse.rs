//! Two-letter valve names, the dense name-keyed table, and the verified
//! parser for valve description lines.

use vstd::prelude::*;

verus! {

/// Number of possible two-letter uppercase names: 26 * 26.
pub const MAX_NAME: usize = 676;

/// A two-character valve identifier. Well-formed names hold two ASCII
/// uppercase letters.
#[derive(Clone, Copy, PartialEq, Eq, Hash, Structural, Debug)]
pub struct Name(pub u8, pub u8);

/// The name whose dense index is `i`.
pub open spec fn spec_name_of(i: int) -> Name {
    Name((i / 26 + 65) as u8, (i % 26 + 65) as u8)
}

impl Name {
    /// Both characters are ASCII uppercase letters.
    pub open spec fn wf(self) -> bool {
        65 <= self.0 <= 90 && 65 <= self.1 <= 90
    }

    /// The dense index of this name in [0, 676).
    pub open spec fn idx(self) -> int {
        (self.0 - 65) * 26 + (self.1 - 65)
    }

    /// Returns this name as a usize between 0 and 26^2.
    pub fn as_usize(self) -> (r: usize)
        requires
            self.wf(),
        ensures
            r == self.idx(),
            r < 676,
    {
        (self.0 - 65) as usize * 26 + (self.1 - 65) as usize
    }

    /// Returns the name with the given dense index.
    pub fn from_usize(index: usize) -> (r: Name)
        requires
            index < 676,
        ensures
            r == spec_name_of(index as int),
            r.wf(),
            r.idx() == index,
    {
        let r = Name((index / 26) as u8 + 65, (index % 26) as u8 + 65);
        proof {
            lemma_name_round_trip(index as int);
        }
        r
    }
}

/// Encoding a dense index as a name and decoding it again is the identity:
/// for every i in [0, 676), the name written for i is well formed and its
/// index is i.
pub proof fn lemma_name_round_trip(i: int)
    requires
        0 <= i < 676,
    ensures
        spec_name_of(i).wf(),
        spec_name_of(i).idx() == i,
{
    assert(0 <= i / 26 < 26) by (nonlinear_arith)
        requires 0 <= i < 676;
    assert(i / 26 * 26 + i % 26 == i) by (nonlinear_arith);
}

/// A dense mapping from names to values, backed by one slot per possible
/// name. The view is the sequence of 676 optional slots, indexed by
/// `Name::idx`.
pub struct NameMap<T> {
    values: Vec<Option<T>>,
}

impl<T> View for NameMap<T> {
    type V = Seq<Option<T>>;

    closed spec fn view(&self) -> Seq<Option<T>> {
        self.values@
    }
}

impl<T> NameMap<T> {
    /// One slot per possible name.
    pub open spec fn wf(self) -> bool {
        self@.len() == 676
    }

    /// An empty table.
    pub fn new() -> (r: Self)
        ensures
            r.wf(),
            forall|i: int| 0 <= i < 676 ==> r@[i] is None,
    {
        let mut values: Vec<Option<T>> = Vec::new();
        while values.len() < 676
            invariant
                values@.len() <= 676,
                forall|i: int| 0 <= i < values@.len() ==> values@[i] is None,
            decreases 676 - values@.len(),
        {
            values.push(None);
        }
        NameMap { values }
    }

    /// The value stored under `name`, if any.
    pub fn get(&self, name: Name) -> (r: Option<&T>)
        requires
            self.wf(),
            name.wf(),
        ensures
            match r {
                Some(t) => self@[name.idx()] == Some(*t),
                None => self@[name.idx()] is None,
            },
    {
        self.values[name.as_usize()].as_ref()
    }

    /// Stores `value` under `name`, replacing any previous value.
    pub fn insert(&mut self, name: Name, value: T)
        requires
            old(self).wf(),
            name.wf(),
        ensures
            final(self)@ == old(self)@.update(name.idx(), Some(value)),
            final(self).wf(),
    {
        let i = name.as_usize();
        self.values[i] = Some(value);
    }

    /// A mutable borrow of the value stored under `name`, if any.
    pub fn get_mut(&mut self, name: Name) -> (r: Option<&mut T>)
        requires
            old(self).wf(),
            name.wf(),
        ensures
            final(self).wf(),
            r is Some <==> old(self)@[name.idx()] is Some,
            r is Some ==> *r.unwrap() == old(self)@[name.idx()]->Some_0 && final(self)@ == old(
                self,
            )@.update(name.idx(), Some(*final(r.unwrap()))),
            r is None ==> final(self)@ == old(self)@,
    {
        self.values[name.as_usize()].as_mut()
    }

    /// The entries that have a value, in increasing index order, each
    /// value borrowed in place.
    pub fn iter(&self) -> (r: Vec<(Name, &T)>)
        requires
            self.wf(),
        ensures
            r@.map_values(|e: (Name, &T)| (e.0, *e.1)) == entries_upto(self@, 676),
    {
        let mut r: Vec<(Name, &T)> = Vec::new();
        let mut k: usize = 0;
        while k < 676
            invariant
                self.wf(),
                k <= 676,
                r@.map_values(|e: (Name, &T)| (e.0, *e.1)) == entries_upto(self@, k as int),
            decreases 676 - k,
        {
            let ghost rold = r@;
            if let Some(t) = self.values[k].as_ref() {
                r.push((Name::from_usize(k), t));
                proof {
                    assert(r@.map_values(|e: (Name, &T)| (e.0, *e.1)) =~= rold.map_values(
                        |e: (Name, &T)| (e.0, *e.1),
                    ).push((spec_name_of(k as int), *t)));
                }
            }
            k += 1;
        }
        r
    }

    /// Whether any value is stored under `name`.
    pub fn contains(&self, name: Name) -> (r: bool)
        requires
            self.wf(),
            name.wf(),
        ensures
            r == (self@[name.idx()] is Some),
    {
        self.values[name.as_usize()].is_some()
    }

    /// Whether no name has a value.
    pub fn is_empty(&self) -> (r: bool)
        requires
            self.wf(),
        ensures
            r == (forall|i: int| 0 <= i < 676 ==> self@[i] is None),
    {
        let mut k: usize = 0;
        while k < 676
            invariant
                self.wf(),
                k <= 676,
                forall|i: int| 0 <= i < k ==> self@[i] is None,
            decreases 676 - k,
        {
            if self.values[k].is_some() {
                return false;
            }
            k += 1;
        }
        true
    }

    /// The names that have a value, in increasing index order.
    pub fn keys(&self) -> (r: Vec<Name>)
        requires
            self.wf(),
        ensures
            r@ == keys_upto(self@, 676),
    {
        let mut r: Vec<Name> = Vec::new();
        let mut k: usize = 0;
        while k < 676
            invariant
                self.wf(),
                k <= 676,
                r@ == keys_upto(self@, k as int),
            decreases 676 - k,
        {
            if self.values[k].is_some() {
                r.push(Name::from_usize(k));
            }
            k += 1;
        }
        r
    }

    /// Consumes the table and returns its entries, in increasing index
    /// order.
    pub fn into_iter(self) -> (r: Vec<(Name, T)>)
        requires
            self.wf(),
        ensures
            r@ == entries_upto(self@, 676),
    {
        let mut values = self.values;
        let ghost orig = values@;
        let mut r: Vec<(Name, T)> = Vec::new();
        let mut k: usize = 0;
        while k < 676
            invariant
                orig.len() == 676,
                k <= 676,
                values@ == orig.skip(k as int),
                r@ == entries_upto(orig, k as int),
            decreases 676 - k,
        {
            let v = values.remove(0);
            proof {
                assert(orig.skip(k as int).remove(0) =~= orig.skip(k as int + 1));
                assert(orig.skip(k as int)[0] == orig[k as int]);
            }
            if let Some(t) = v {
                r.push((Name::from_usize(k), t));
            }
            k += 1;
        }
        r
    }
}

/// A static puzzle fact: a valve's name, its flow rate, and the names of
/// the directly adjacent valves.
pub struct Valve {
    pub name: Name,
    pub flow: u64,
    pub links: Vec<Name>,
}

/// Whether `c` is an ASCII decimal digit.
pub open spec fn is_digit(c: u8) -> bool {
    48 <= c <= 57
}

/// The fixed text of a valve line up to the flow-rate digits:
/// `Valve ` at 0, a two-letter name at 6, ` has flow rate=` at 8.
pub open spec fn head_ok(s: Seq<u8>) -> bool {
    &&& s.len() >= 23
    &&& s[0] == 86 && s[1] == 97 && s[2] == 108 && s[3] == 118 && s[4] == 101 && s[5] == 32
    &&& Name(s[6], s[7]).wf()
    &&& s[8] == 32 && s[9] == 104 && s[10] == 97 && s[11] == 115 && s[12] == 32
    &&& s[13] == 102 && s[14] == 108 && s[15] == 111 && s[16] == 119 && s[17] == 32
    &&& s[18] == 114 && s[19] == 97 && s[20] == 116 && s[21] == 101 && s[22] == 61
}

/// The first position at or after `i` that does not hold a digit.
pub open spec fn digits_end(s: Seq<u8>, i: int) -> int
    decreases s.len() - i,
{
    if i < s.len() && is_digit(s[i]) {
        digits_end(s, i + 1)
    } else {
        i
    }
}

/// The decimal value of the digits at positions `[i, j)`.
pub open spec fn digits_val(s: Seq<u8>, i: int, j: int) -> int
    decreases j - i,
{
    if i >= j {
        0
    } else {
        digits_val(s, i, j - 1) * 10 + (s[j - 1] - 48)
    }
}

/// The plural tunnel clause `; tunnels lead to valves ` starting at `j`.
pub open spec fn plural_sep_at(s: Seq<u8>, j: int) -> bool {
    &&& 0 <= j && j + 25 <= s.len()
    &&& s[j] == 59 && s[j + 1] == 32
    &&& s[j + 2] == 116 && s[j + 3] == 117 && s[j + 4] == 110 && s[j + 5] == 110
    &&& s[j + 6] == 101 && s[j + 7] == 108 && s[j + 8] == 115 && s[j + 9] == 32
    &&& s[j + 10] == 108 && s[j + 11] == 101 && s[j + 12] == 97 && s[j + 13] == 100 && s[j + 14] == 32
    &&& s[j + 15] == 116 && s[j + 16] == 111 && s[j + 17] == 32
    &&& s[j + 18] == 118 && s[j + 19] == 97 && s[j + 20] == 108 && s[j + 21] == 118
    &&& s[j + 22] == 101 && s[j + 23] == 115 && s[j + 24] == 32
}

/// The singular tunnel clause `; tunnel leads to valve ` starting at `j`.
pub open spec fn singular_sep_at(s: Seq<u8>, j: int) -> bool {
    &&& 0 <= j && j + 24 <= s.len()
    &&& s[j] == 59 && s[j + 1] == 32
    &&& s[j + 2] == 116 && s[j + 3] == 117 && s[j + 4] == 110 && s[j + 5] == 110
    &&& s[j + 6] == 101 && s[j + 7] == 108 && s[j + 8] == 32
    &&& s[j + 9] == 108 && s[j + 10] == 101 && s[j + 11] == 97 && s[j + 12] == 100 && s[j + 13] == 115 && s[j + 14] == 32
    &&& s[j + 15] == 116 && s[j + 16] == 111 && s[j + 17] == 32
    &&& s[j + 18] == 118 && s[j + 19] == 97 && s[j + 20] == 108 && s[j + 21] == 118
    &&& s[j + 22] == 101 && s[j + 23] == 32
}

/// The comma-separated list of names that fills the rest of the line:
/// a two-letter name at `i`, then either the end of the line or `, ` and
/// another name. Anything else leaves the line unconsumed and rejected.
pub open spec fn links_from(s: Seq<u8>, i: int) -> Option<Seq<Name>>
    decreases s.len() - i,
{
    if i < 0 || i + 2 > s.len() || !Name(s[i], s[i + 1]).wf() {
        None
    } else {
        let nm = Name(s[i], s[i + 1]);
        if i + 2 == s.len() {
            Some(seq![nm])
        } else if i + 4 <= s.len() && s[i + 2] == 44 && s[i + 3] == 32 {
            match links_from(s, i + 4) {
                None => None,
                Some(rest) => Some(seq![nm] + rest),
            }
        } else {
            None
        }
    }
}

/// The meaning of one whole valve line: the head, a non-empty run of
/// digits whose value fits in a u64, one of the two tunnel clauses, and
/// the list of linked names, with nothing left over.
pub open spec fn spec_parse_line(s: Seq<u8>) -> Option<(Name, int, Seq<Name>)> {
    if !head_ok(s) {
        None
    } else {
        let name = Name(s[6], s[7]);
        let j = digits_end(s, 23);
        if j == 23 {
            None
        } else {
            let flow = digits_val(s, 23, j);
            if flow > u64::MAX {
                None
            } else if plural_sep_at(s, j) {
                match links_from(s, j + 25) {
                    None => None,
                    Some(ls) => Some((name, flow, ls)),
                }
            } else if singular_sep_at(s, j) {
                match links_from(s, j + 24) {
                    None => None,
                    Some(ls) => Some((name, flow, ls)),
                }
            } else {
                None
            }
        }
    }
}

/// The value of a run of digits is never negative.
proof fn lemma_digits_val_nonneg(s: Seq<u8>, i: int, j: int)
    requires
        forall|k: int| i <= k < j ==> is_digit(s[k]),
    ensures
        digits_val(s, i, j) >= 0,
    decreases j - i,
{
    if i < j {
        lemma_digits_val_nonneg(s, i, j - 1);
        assert(digits_val(s, i, j - 1) * 10 >= 0) by (nonlinear_arith)
            requires digits_val(s, i, j - 1) >= 0;
    }
}

impl Valve {
    /// Parses one valve description line, accepting exactly the grammar
    /// that `spec_parse_line` gives: `Valve <AA-ZZ> has flow
    /// rate=<uint>; tunnels lead to valves <AA-ZZ>(, <AA-ZZ>)*`, with the
    /// singular `; tunnel leads to valve ` variant also accepted, and no
    /// trailing bytes.
    pub fn parse(i: &[u8]) -> (r: Option<Valve>)
        ensures
            match spec_parse_line(i@) {
                Some((nm, fl, ls)) => {
                    &&& r matches Some(v)
                    &&& r->Some_0.name == nm
                    &&& r->Some_0.name.wf()
                    &&& r->Some_0.flow == fl
                    &&& r->Some_0.links@ == ls
                    &&& forall|q: int| 0 <= q < ls.len() ==> ls[q].wf()
                },
                None => r is None,
            },
    {
        if i.len() < 23 {
            return None;
        }
        if !(i[0] == 86 && i[1] == 97 && i[2] == 108 && i[3] == 118 && i[4] == 101 && i[5] == 32) {
            return None;
        }
        let a = i[6];
        let b = i[7];
        if a < 65 || a > 90 || b < 65 || b > 90 {
            return None;
        }
        if !(i[8] == 32 && i[9] == 104 && i[10] == 97 && i[11] == 115 && i[12] == 32 && i[13]
            == 102 && i[14] == 108 && i[15] == 111 && i[16] == 119 && i[17] == 32 && i[18] == 114
            && i[19] == 97 && i[20] == 116 && i[21] == 101 && i[22] == 61) {
            return None;
        }
        let name = Name(a, b);
        assert(head_ok(i@));

        let mut j: usize = 23;
        let mut val: u64 = 0;
        let mut over: bool = false;
        while j < i.len() && 48 <= i[j] && i[j] <= 57
            invariant
                23 <= j <= i@.len(),
                forall|k: int| 23 <= k < j ==> is_digit(i@[k]),
                digits_end(i@, 23) == digits_end(i@, j as int),
                !over ==> val == digits_val(i@, 23, j as int),
                over ==> digits_val(i@, 23, j as int) > u64::MAX,
            decreases i@.len() - j,
        {
            let d = i[j] - 48;
            proof {
                lemma_digits_val_nonneg(i@, 23, j as int);
            }
            if over {
                proof {
                    let v = digits_val(i@, 23, j as int);
                    assert(v * 10 + (i@[j as int] - 48) > u64::MAX) by (nonlinear_arith)
                        requires v > u64::MAX, is_digit(i@[j as int]);
                }
            } else if val <= (u64::MAX - d as u64) / 10 {
                proof {
                    let m = (u64::MAX - d) as int;
                    assert(val * 10 <= (m / 10) * 10) by (nonlinear_arith)
                        requires val <= m / 10, 0 <= val;
                    assert((m / 10) * 10 <= m) by (nonlinear_arith)
                        requires m >= 0;
                }
                val = val * 10 + d as u64;
            } else {
                proof {
                    let m = (u64::MAX - d) as int;
                    assert((m / 10) * 10 + 10 > m) by (nonlinear_arith)
                        requires m >= 0;
                    assert(val * 10 >= (m / 10 + 1) * 10) by (nonlinear_arith)
                        requires val >= m / 10 + 1;
                }
                over = true;
            }
            j += 1;
        }
        if j == 23 {
            return None;
        }
        if over {
            return None;
        }
        let ghost dend = digits_end(i@, 23);
        assert(dend == j as int);

        let sep_plural = i.len() - j >= 25 && i[j] == 59 && i[j + 1] == 32 && i[j + 2] == 116
            && i[j + 3] == 117 && i[j + 4] == 110 && i[j + 5] == 110 && i[j + 6] == 101 && i[j + 7]
            == 108 && i[j + 8] == 115 && i[j + 9] == 32 && i[j + 10] == 108 && i[j + 11] == 101
            && i[j + 12] == 97 && i[j + 13] == 100 && i[j + 14] == 32 && i[j + 15] == 116 && i[j
            + 16] == 111 && i[j + 17] == 32 && i[j + 18] == 118 && i[j + 19] == 97 && i[j + 20]
            == 108 && i[j + 21] == 118 && i[j + 22] == 101 && i[j + 23] == 115 && i[j + 24] == 32;
        let sep_singular = !sep_plural && i.len() - j >= 24 && i[j] == 59 && i[j + 1] == 32 && i[j
            + 2] == 116 && i[j + 3] == 117 && i[j + 4] == 110 && i[j + 5] == 110 && i[j + 6] == 101
            && i[j + 7] == 108 && i[j + 8] == 32 && i[j + 9] == 108 && i[j + 10] == 101 && i[j + 11]
            == 97 && i[j + 12] == 100 && i[j + 13] == 115 && i[j + 14] == 32 && i[j + 15] == 116
            && i[j + 16] == 111 && i[j + 17] == 32 && i[j + 18] == 118 && i[j + 19] == 97 && i[j
            + 20] == 108 && i[j + 21] == 118 && i[j + 22] == 101 && i[j + 23] == 32;
        assert(sep_plural == plural_sep_at(i@, dend));
        assert(!sep_plural ==> sep_singular == singular_sep_at(i@, dend));
        let mut k: usize;
        if sep_plural {
            k = j + 25;
        } else if sep_singular {
            k = j + 24;
        } else {
            return None;
        }

        let ghost k0 = k as int;
        let mut links: Vec<Name> = Vec::new();
        loop
            invariant
                k0 <= k <= i@.len(),
                head_ok(i@),
                dend == digits_end(i@, 23),
                23 < dend,
                digits_val(i@, 23, dend) == val,
                (if plural_sep_at(i@, dend) { k0 == dend + 25 } else {
                    singular_sep_at(i@, dend) && k0 == dend + 24
                }),
                name == Name(i@[6], i@[7]),
                forall|q: int| 0 <= q < links@.len() ==> links@[q].wf(),
                match links_from(i@, k as int) {
                    Some(rest) => links_from(i@, k0) == Some(links@ + rest),
                    None => links_from(i@, k0) is None,
                },
            decreases i@.len() - k,
        {
            if i.len() - k < 2 {
                return None;
            }
            let ca = i[k];
            let cb = i[k + 1];
            if ca < 65 || ca > 90 || cb < 65 || cb > 90 {
                return None;
            }
            let nm = Name(ca, cb);
            if k + 2 == i.len() {
                let ghost lold = links@;
                links.push(nm);
                proof {
                    assert(links_from(i@, k as int) == Some(seq![nm]));
                    assert(lold + seq![nm] =~= links@);
                }
                return Some(Valve { name, flow: val, links });
            }
            if i.len() - k >= 4 && i[k + 2] == 44 && i[k + 3] == 32 {
                let ghost lold = links@;
                links.push(nm);
                proof {
                    let rest2 = links_from(i@, k as int + 4);
                    if rest2 is Some {
                        assert(links_from(i@, k as int) == Some(seq![nm] + rest2->Some_0));
                        assert(lold + (seq![nm] + rest2->Some_0) =~= links@ + rest2->Some_0);
                    } else {
                        assert(links_from(i@, k as int) is None);
                    }
                }
                k += 4;
            } else {
                return None;
            }
        }
    }
}

/// The names of the filled slots among the first `k`, in index order.
pub open spec fn keys_upto<T>(m: Seq<Option<T>>, k: int) -> Seq<Name>
    decreases k,
{
    if k <= 0 {
        Seq::empty()
    } else if m[k - 1] is Some {
        keys_upto(m, k - 1).push(spec_name_of(k - 1))
    } else {
        keys_upto(m, k - 1)
    }
}

/// The entries of the filled slots among the first `k`, in index order.
pub open spec fn entries_upto<T>(m: Seq<Option<T>>, k: int) -> Seq<(Name, T)>
    decreases k,
{
    if k <= 0 {
        Seq::empty()
    } else {
        match m[k - 1] {
            Some(t) => entries_upto(m, k - 1).push((spec_name_of(k - 1), t)),
            None => entries_upto(m, k - 1),
        }
    }
}

} // verus!
