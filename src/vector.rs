//! Vector session tokens: per-partition replication progress, made of a
//! protocol version, a global LSN and one LSN per region.
//!
//! Text form: `<version>#<global_lsn>[#<region_id>=<region_lsn>]*`.
use vstd::prelude::*;

use crate::error::{result_view, Error, ErrorView};
use crate::ids::{Lsn, RegionId};
use crate::text::{
    all_digits, append_decimal, lemma_decimal, lemma_index_of_at, chars_of, decimal, digits_value, find_char, index_of, is_number_within,
    lemma_index_of, parse_u32_from_slice, parse_u64_from_slice, u32_bound, u64_bound,
};

verus! {

broadcast use vstd::string::group_string_axioms;

/// The mathematical value of a [`VectorSessionToken`].
pub struct TokenView {
    pub version: u64,
    pub global_lsn: Lsn,
    /// Region entries, kept in increasing order of region id.
    pub regions: Seq<(RegionId, Lsn)>,
}

/// A vector session token: the progress of one partition as observed by
/// the client, with a global component and zero or more regional ones.
///
/// The regional LSNs are held in increasing order of region id, each region
/// once; [`VectorSessionToken::wf`] states this.
#[derive(Debug, Clone, PartialEq)]
pub struct VectorSessionToken {
    /// The version of the session token format.
    pub version: u64,
    /// The global logical sequence number.
    pub global_lsn: Lsn,
    /// Each region's logical sequence number, by increasing region id.
    pub regional_lsns: Vec<(RegionId, Lsn)>,
}

impl View for VectorSessionToken {
    type V = TokenView;

    open spec fn view(&self) -> TokenView {
        TokenView { version: self.version, global_lsn: self.global_lsn, regions: self.regional_lsns@ }
    }
}

/// A parse result, as views.
pub open spec fn parsed_view(r: Result<VectorSessionToken, Error>) -> Result<TokenView, ErrorView> {
    match r {
        Ok(t) => Ok(t@),
        Err(e) => Err(e@),
    }
}

/// Region ids strictly increase along `s`: each region stands once.
pub open spec fn sorted_regions(s: Seq<(RegionId, Lsn)>) -> bool {
    forall|i: int, j: int| 0 <= i < j < s.len() ==> s[i].0.0 < s[j].0.0
}

impl TokenView {
    pub open spec fn wf(self) -> bool {
        sorted_regions(self.regions)
    }
}

/// `s` with the entry `(k, v)` put in its place by region id, replacing
/// the entry of `k` if there is one.
pub open spec fn insert_region(s: Seq<(RegionId, Lsn)>, k: RegionId, v: Lsn) -> Seq<
    (RegionId, Lsn),
>
    decreases s.len(),
{
    if s.len() == 0 {
        seq![(k, v)]
    } else if s.last().0.0 < k.0 {
        s.push((k, v))
    } else if s.last().0.0 == k.0 {
        s.drop_last().push((k, v))
    } else {
        insert_region(s.drop_last(), k, v).push(s.last())
    }
}

/// One regional component, `<region_id>=<region_lsn>`.
pub open spec fn parse_component_spec(c: Seq<char>) -> Result<(RegionId, Lsn), ErrorView> {
    let e = index_of(c, '=');
    if e < 0 {
        Err(ErrorView::MalformedRegionalComponent(c))
    } else {
        let k = c.subrange(0, e);
        let v = c.subrange(e + 1, c.len() as int);
        if k.len() == 0 || v.len() == 0 {
            Err(ErrorView::MalformedRegionalComponent(c))
        } else if !is_number_within(k, u32_bound()) {
            Err(ErrorView::InvalidRegionId(k))
        } else if !is_number_within(v, u64_bound()) {
            Err(ErrorView::InvalidRegionLsn(v))
        } else {
            Ok((RegionId(digits_value(k) as u32), Lsn(digits_value(v) as u64)))
        }
    }
}

/// The '#'-separated regional components of `r`, added to `acc` from left
/// to right; a trailing '#' ends the list.
pub open spec fn parse_regions_spec(r: Seq<char>, acc: Seq<(RegionId, Lsn)>) -> Result<
    Seq<(RegionId, Lsn)>,
    ErrorView,
>
    decreases r.len(),
    via parse_regions_decreases
{
    if r.len() == 0 {
        Ok(acc)
    } else {
        let e = index_of(r, '#');
        let comp = if e < 0 {
            r
        } else {
            r.subrange(0, e)
        };
        match parse_component_spec(comp) {
            Err(err) => Err(err),
            Ok(kv) => {
                let acc2 = insert_region(acc, kv.0, kv.1);
                if e < 0 {
                    Ok(acc2)
                } else {
                    parse_regions_spec(r.subrange(e + 1, r.len() as int), acc2)
                }
            },
        }
    }
}

#[via_fn]
proof fn parse_regions_decreases(r: Seq<char>, acc: Seq<(RegionId, Lsn)>) {
    lemma_index_of(r, '#');
}

/// A token with the given version and global LSN, once its regions parsed.
pub open spec fn token_outcome(
    version: u64,
    global: u64,
    regions: Result<Seq<(RegionId, Lsn)>, ErrorView>,
) -> Result<TokenView, ErrorView> {
    match regions {
        Ok(regs) => Ok(TokenView { version: version, global_lsn: Lsn(global), regions: regs }),
        Err(e) => Err(e),
    }
}

/// What the text `s` parses to: a token, or the first error met from the
/// left.
pub open spec fn parse_vector_spec(s: Seq<char>) -> Result<TokenView, ErrorView> {
    if s.len() == 0 {
        Err(ErrorView::EmptyInput)
    } else {
        let p = index_of(s, '#');
        if p < 0 {
            Err(ErrorView::MissingComponents)
        } else {
            let vs = s.subrange(0, p);
            if !is_number_within(vs, u64_bound()) {
                Err(ErrorView::InvalidVersion(vs))
            } else {
                let rest = s.subrange(p + 1, s.len() as int);
                let q = index_of(rest, '#');
                let gs = if q < 0 {
                    rest
                } else {
                    rest.subrange(0, q)
                };
                if gs.len() == 0 {
                    Err(ErrorView::MissingComponents)
                } else if !is_number_within(gs, u64_bound()) {
                    Err(ErrorView::InvalidGlobalLsn(gs))
                } else {
                    let regions_part = if q < 0 {
                        Seq::empty()
                    } else {
                        rest.subrange(q + 1, rest.len() as int)
                    };
                    token_outcome(
                        digits_value(vs) as u64,
                        digits_value(gs) as u64,
                        parse_regions_spec(regions_part, Seq::empty()),
                    )
                }
            }
        }
    }
}

/// One regional component, `<region_id>=<region_lsn>`.
pub open spec fn region_body(e: (RegionId, Lsn)) -> Seq<char> {
    decimal(e.0.0 as nat) + seq!['='] + decimal(e.1.0 as nat)
}

/// The text of one regional component, with its leading '#'.
pub open spec fn region_text(e: (RegionId, Lsn)) -> Seq<char> {
    seq!['#'] + region_body(e)
}

pub open spec fn regions_text(s: Seq<(RegionId, Lsn)>) -> Seq<char>
    decreases s.len(),
{
    if s.len() == 0 {
        Seq::empty()
    } else {
        region_text(s[0]) + regions_text(s.drop_first())
    }
}

/// The text form of a token.
pub open spec fn token_text(t: TokenView) -> Seq<char> {
    decimal(t.version as nat) + seq!['#'] + decimal(t.global_lsn.0 as nat) + regions_text(
        t.regions,
    )
}

proof fn lemma_insert_region_at(s: Seq<(RegionId, Lsn)>, k: RegionId, v: Lsn, i: int)
    requires
        0 <= i <= s.len(),
        forall|j: int| i <= j < s.len() ==> s[j].0.0 > k.0,
        i == 0 || s[i - 1].0.0 <= k.0,
    ensures
        insert_region(s, k, v) == (if i > 0 && s[i - 1].0.0 == k.0 {
            s.update(i - 1, (k, v))
        } else {
            s.insert(i, (k, v))
        }),
    decreases s.len() - i,
{
    if i == s.len() {
        if s.len() == 0 {
            assert(seq![(k, v)] =~= s.insert(0, (k, v)));
        } else if s.last().0.0 < k.0 {
            assert(s.push((k, v)) =~= s.insert(i, (k, v)));
        } else {
            assert(s.drop_last().push((k, v)) =~= s.update(i - 1, (k, v)));
        }
    } else {
        let t = s.drop_last();
        lemma_insert_region_at(t, k, v, i);
        if i > 0 && s[i - 1].0.0 == k.0 {
            assert(t.update(i - 1, (k, v)).push(s.last()) =~= s.update(i - 1, (k, v)));
        } else {
            assert(t.insert(i, (k, v)).push(s.last()) =~= s.insert(i, (k, v)));
        }
    }
}

/// Puts `(k, v)` into the sorted region list `regions`.
fn insert_region_exec(regions: &mut Vec<(RegionId, Lsn)>, k: RegionId, v: Lsn)
    requires
        sorted_regions(old(regions)@),
    ensures
        final(regions)@ == insert_region(old(regions)@, k, v),
        sorted_regions(final(regions)@),
{
    let mut i = regions.len();
    while i > 0 && regions[i - 1].0.0 > k.0
        invariant
            0 <= i <= regions.len(),
            forall|j: int| i <= j < regions.len() ==> regions@[j].0.0 > k.0,
        decreases i,
    {
        i = i - 1;
    }
    proof {
        lemma_insert_region_at(regions@, k, v, i as int);
    }
    if i > 0 && regions[i - 1].0.0 == k.0 {
        regions.set(i - 1, (k, v));
    } else {
        regions.insert(i, (k, v));
    }
}

/// Parses `<region_id>=<region_lsn>` from `cs[from..to]`, where `cs` holds
/// the characters of `s`.
fn parse_component(s: &str, cs: &Vec<char>, from: usize, to: usize) -> (r: Result<
    (RegionId, Lsn),
    Error,
>)
    requires
        cs@ == s@,
        from <= to <= cs.len(),
    ensures
        result_view(r) == parse_component_spec(cs@.subrange(from as int, to as int)),
{
    let ghost c = cs@.subrange(from as int, to as int);
    let e = find_char(cs, from, to, '=');
    if e == to {
        return Err(Error::MalformedRegionalComponent(String::from_str(s.substring_char(from, to))));
    }
    assert(c.subrange(0, e - from) =~= cs@.subrange(from as int, e as int));
    assert(c.subrange(e - from + 1, c.len() as int) =~= cs@.subrange(e + 1, to as int));
    if e == from || e + 1 == to {
        return Err(Error::MalformedRegionalComponent(String::from_str(s.substring_char(from, to))));
    }
    let ks = s.substring_char(from, e);
    let k = match parse_u32_from_slice(ks) {
        Ok(k) => k,
        Err(_) => {
            return Err(Error::InvalidRegionId(String::from_str(ks)));
        },
    };
    let vs = s.substring_char(e + 1, to);
    let v = match parse_u64_from_slice(vs) {
        Ok(v) => v,
        Err(_) => {
            return Err(Error::InvalidRegionLsn(String::from_str(vs)));
        },
    };
    Ok((RegionId(k), Lsn(v)))
}

proof fn lemma_regions_text_push(s: Seq<(RegionId, Lsn)>, e: (RegionId, Lsn))
    ensures
        regions_text(s.push(e)) == regions_text(s) + region_text(e),
    decreases s.len(),
{
    if s.len() == 0 {
        let t = seq![e];
        assert(t.drop_first() =~= Seq::<(RegionId, Lsn)>::empty());
        assert(regions_text(t.drop_first()) == Seq::<char>::empty());
        assert(t[0] == e);
        assert(s.push(e) =~= t);
        assert(regions_text(t) =~= region_text(e));
    } else {
        assert(s.push(e).drop_first() =~= s.drop_first().push(e));
        lemma_regions_text_push(s.drop_first(), e);
        assert(regions_text(s.push(e)) =~= regions_text(s) + region_text(e));
    }
}

/// The set of region ids that occur in `s`.
pub open spec fn key_set(s: Seq<(RegionId, Lsn)>) -> Set<u32> {
    Set::new(|k: u32| exists|i: int| 0 <= i < s.len() && #[trigger] s[i].0.0 == k)
}

/// The LSN of region `k` in `s`, if `s` holds one.
pub open spec fn lookup(s: Seq<(RegionId, Lsn)>, k: u32) -> Option<Lsn>
    decreases s.len(),
{
    if s.len() == 0 {
        None
    } else if s[0].0.0 == k {
        Some(s[0].1)
    } else {
        lookup(s.drop_first(), k)
    }
}

proof fn lemma_lookup_at(s: Seq<(RegionId, Lsn)>, k: u32, i: int)
    requires
        0 <= i <= s.len(),
        i == s.len() || s[i].0.0 == k,
        forall|j: int| 0 <= j < i ==> s[j].0.0 != k,
    ensures
        lookup(s, k) == (if i == s.len() {
            None
        } else {
            Some(s[i].1)
        }),
    decreases i,
{
    if i > 0 {
        let t = s.drop_first();
        assert forall|j: int| 0 <= j < i - 1 implies t[j].0.0 != k by {
            assert(t[j] == s[j + 1]);
        }
        lemma_lookup_at(t, k, i - 1);
    }
}

/// In a sorted list, each entry is what its region id looks up.
pub proof fn lemma_lookup_sorted(s: Seq<(RegionId, Lsn)>, i: int)
    requires
        sorted_regions(s),
        0 <= i < s.len(),
    ensures
        lookup(s, s[i].0.0) == Some(s[i].1),
{
    lemma_lookup_at(s, s[i].0.0, i);
}

fn find_region(s: &Vec<(RegionId, Lsn)>, k: u32) -> (r: Option<Lsn>)
    ensures
        r == lookup(s@, k),
{
    let mut i: usize = 0;
    while i < s.len() && s[i].0.0 != k
        invariant
            0 <= i <= s.len(),
            forall|j: int| 0 <= j < i ==> s@[j].0.0 != k,
        decreases s.len() - i,
    {
        i = i + 1;
    }
    proof {
        lemma_lookup_at(s@, k, i as int);
    }
    if i < s.len() {
        Some(s[i].1)
    } else {
        None
    }
}

proof fn lemma_key_step(a: Seq<(RegionId, Lsn)>, b: Seq<(RegionId, Lsn)>, n: int)
    requires
        sorted_regions(a),
        sorted_regions(b),
        key_set(a) == key_set(b),
        0 <= n < a.len(),
        n < b.len(),
        forall|i: int| 0 <= i < n ==> a[i].0.0 == b[i].0.0,
    ensures
        a[n].0.0 == b[n].0.0,
{
    let ka = a[n].0.0;
    assert(key_set(a).contains(ka));
    assert(key_set(b).contains(ka));
    let m = choose|m: int| 0 <= m < b.len() && #[trigger] b[m].0.0 == ka;
    if m < n {
        assert(a[m].0.0 == b[m].0.0);
    } else if m > n {
        let kb = b[n].0.0;
        assert(key_set(b).contains(kb));
        assert(key_set(a).contains(kb));
        let p = choose|p: int| 0 <= p < a.len() && #[trigger] a[p].0.0 == kb;
        if p < n {
            assert(a[p].0.0 == b[p].0.0);
        } else if p > n {
            assert(a[p].0.0 > a[n].0.0);
        }
    }
}

proof fn lemma_keys_prefix(a: Seq<(RegionId, Lsn)>, b: Seq<(RegionId, Lsn)>, n: int)
    requires
        sorted_regions(a),
        sorted_regions(b),
        key_set(a) == key_set(b),
        0 <= n <= a.len(),
        n <= b.len(),
    ensures
        forall|i: int| 0 <= i < n ==> a[i].0.0 == b[i].0.0,
    decreases n,
{
    if n > 0 {
        lemma_keys_prefix(a, b, n - 1);
        lemma_key_step(a, b, n - 1);
    }
}

/// Two sorted region lists with the same set of region ids list the same
/// ids in the same places.
pub proof fn lemma_sorted_same_keys(a: Seq<(RegionId, Lsn)>, b: Seq<(RegionId, Lsn)>)
    requires
        sorted_regions(a),
        sorted_regions(b),
        key_set(a) == key_set(b),
    ensures
        a.len() == b.len(),
        forall|i: int| 0 <= i < a.len() ==> a[i].0.0 == b[i].0.0,
{
    let m = if a.len() < b.len() {
        a.len() as int
    } else {
        b.len() as int
    };
    lemma_keys_prefix(a, b, m);
    if a.len() < b.len() {
        let kb = b[m].0.0;
        assert(key_set(b).contains(kb));
        assert(key_set(a).contains(kb));
        let p = choose|p: int| 0 <= p < a.len() && #[trigger] a[p].0.0 == kb;
        assert(a[p].0.0 == b[p].0.0);
    } else if b.len() < a.len() {
        let ka = a[m].0.0;
        assert(key_set(a).contains(ka));
        assert(key_set(b).contains(ka));
        let p = choose|p: int| 0 <= p < b.len() && #[trigger] b[p].0.0 == ka;
        assert(a[p].0.0 == b[p].0.0);
    }
}

/// Whether two sorted region lists hold the same set of region ids.
fn same_region_keys(a: &Vec<(RegionId, Lsn)>, b: &Vec<(RegionId, Lsn)>) -> (r: bool)
    requires
        sorted_regions(a@),
        sorted_regions(b@),
    ensures
        r == (key_set(a@) == key_set(b@)),
{
    if a.len() != b.len() {
        proof {
            if key_set(a@) == key_set(b@) {
                lemma_sorted_same_keys(a@, b@);
            }
        }
        return false;
    }
    let mut i: usize = 0;
    while i < a.len()
        invariant
            sorted_regions(a@),
            sorted_regions(b@),
            a.len() == b.len(),
            0 <= i <= a.len(),
            forall|j: int| 0 <= j < i ==> a@[j].0.0 == b@[j].0.0,
        decreases a.len() - i,
    {
        if a[i].0.0 != b[i].0.0 {
            proof {
                if key_set(a@) == key_set(b@) {
                    lemma_sorted_same_keys(a@, b@);
                }
            }
            return false;
        }
        i = i + 1;
    }
    assert forall|k: u32| key_set(a@).contains(k) == key_set(b@).contains(k) by {
        if key_set(a@).contains(k) {
            let j = choose|j: int| 0 <= j < a.len() && #[trigger] a@[j].0.0 == k;
            assert(b@[j].0.0 == k);
        }
        if key_set(b@).contains(k) {
            let j = choose|j: int| 0 <= j < b.len() && #[trigger] b@[j].0.0 == k;
            assert(a@[j].0.0 == k);
        }
    }
    assert(key_set(a@) =~= key_set(b@));
    true
}

/// The larger of an LSN and the LSN that the other token holds, if any.
pub open spec fn merged_lsn(x: Lsn, o: Option<Lsn>) -> Lsn {
    match o {
        Some(y) => if y.0 > x.0 {
            y
        } else {
            x
        },
        None => x,
    }
}

/// The regions of `h`, each raised to its LSN in `l` where `l` has it.
pub open spec fn merge_regions(h: Seq<(RegionId, Lsn)>, l: Seq<(RegionId, Lsn)>) -> Seq<
    (RegionId, Lsn),
> {
    Seq::new(h.len(), |i: int| (h[i].0, merged_lsn(h[i].1, lookup(l, h[i].0.0))))
}

/// The merge of two tokens, or `None` when they have equal versions and
/// different region sets.
///
/// The token of higher version (the first on a tie) gives the version and
/// the regions; on equal versions the global LSN is the larger one, else
/// that of the higher version.
pub open spec fn merge_spec(a: TokenView, b: TokenView) -> Option<TokenView> {
    if a.version == b.version && key_set(a.regions) != key_set(b.regions) {
        None
    } else if a.version == b.version {
        Some(
            TokenView {
                version: a.version,
                global_lsn: if b.global_lsn.0 > a.global_lsn.0 {
                    b.global_lsn
                } else {
                    a.global_lsn
                },
                regions: merge_regions(a.regions, b.regions),
            },
        )
    } else if a.version > b.version {
        Some(
            TokenView {
                version: a.version,
                global_lsn: a.global_lsn,
                regions: merge_regions(a.regions, b.regions),
            },
        )
    } else {
        Some(
            TokenView {
                version: b.version,
                global_lsn: b.global_lsn,
                regions: merge_regions(b.regions, a.regions),
            },
        )
    }
}

/// Whether `other` is progress relative to `current`, or `None` when they
/// have equal versions and different region sets.
pub open spec fn advance_spec(current: TokenView, other: TokenView) -> Option<bool> {
    if other.version > current.version {
        Some(true)
    } else if other.version < current.version {
        Some(false)
    } else if key_set(current.regions) != key_set(other.regions) {
        None
    } else {
        Some(
            other.global_lsn.0 >= current.global_lsn.0 && forall|k: u32| #[trigger]
                key_set(current.regions).contains(k) ==> lookup(other.regions, k).unwrap().0
                    >= lookup(current.regions, k).unwrap().0,
        )
    }
}

/// The reason given when two tokens cannot be merged.
pub open spec fn merge_refusal() -> Seq<char> {
    "tokens have same version but different regions"@
}

fn merge_regions_exec(h: &Vec<(RegionId, Lsn)>, l: &Vec<(RegionId, Lsn)>) -> (r: Vec<
    (RegionId, Lsn),
>)
    requires
        sorted_regions(h@),
    ensures
        r@ == merge_regions(h@, l@),
        sorted_regions(r@),
{
    let mut r: Vec<(RegionId, Lsn)> = Vec::new();
    let mut i: usize = 0;
    while i < h.len()
        invariant
            0 <= i <= h.len(),
            r@ =~= merge_regions(h@, l@).take(i as int),
        decreases h.len() - i,
    {
        let (k, x) = h[i];
        let m = match find_region(l, k.0) {
            Some(y) => if y.0 > x.0 {
                y
            } else {
                x
            },
            None => x,
        };
        r.push((k, m));
        i = i + 1;
    }
    assert(merge_regions(h@, l@).take(h.len() as int) =~= merge_regions(h@, l@));
    r
}

impl VectorSessionToken {
    /// Each region stands once, in increasing order of region id.
    pub open spec fn wf(&self) -> bool {
        sorted_regions(self.regional_lsns@)
    }

    /// Parses a token from its text form.
    ///
    /// Fails with `EmptyInput` on an empty text; `MissingComponents` when
    /// there is no '#' or the global LSN is empty; `InvalidVersion`,
    /// `InvalidGlobalLsn`, `InvalidRegionId` or `InvalidRegionLsn` when a
    /// number holds a non-digit or overflows; `MalformedRegionalComponent`
    /// when a region lacks its '=', its key or its value. When a region
    /// occurs twice, its last value is kept.
    pub fn from_str(s: &str) -> (r: Result<VectorSessionToken, Error>)
        ensures
            parsed_view(r) == parse_vector_spec(s@),
            r is Ok ==> r->Ok_0.wf(),
    {
        let cs = chars_of(s);
        let n = cs.len();
        if n == 0 {
            return Err(Error::EmptyInput);
        }
        let p = find_char(&cs, 0, n, '#');
        assert(cs@.subrange(0, n as int) =~= s@);
        if p == n {
            return Err(Error::MissingComponents);
        }
        let vstr = s.substring_char(0, p);
        let version = match parse_u64_from_slice(vstr) {
            Ok(v) => v,
            Err(_) => {
                return Err(Error::InvalidVersion(String::from_str(vstr)));
            },
        };
        let ghost rest = s@.subrange(p + 1, n as int);
        assert(rest =~= cs@.subrange(p + 1, n as int));
        let q = find_char(&cs, p + 1, n, '#');
        assert(rest.subrange(0, q - p - 1) =~= cs@.subrange(p + 1, q as int));
        if q == p + 1 {
            return Err(Error::MissingComponents);
        }
        let gstr = s.substring_char(p + 1, q);
        let global = match parse_u64_from_slice(gstr) {
            Ok(v) => v,
            Err(_) => {
                return Err(Error::InvalidGlobalLsn(String::from_str(gstr)));
            },
        };
        let ghost regions_part = if q == n {
            Seq::<char>::empty()
        } else {
            rest.subrange(q - p, rest.len() as int)
        };
        assert(q == n ==> rest.subrange(0, q - p - 1) =~= rest);
        let mut regions: Vec<(RegionId, Lsn)> = Vec::new();
        let mut pos = if q == n {
            n
        } else {
            q + 1
        };
        assert(regions_part =~= cs@.subrange(pos as int, n as int));
        assert(parse_vector_spec(s@) == token_outcome(version, global, parse_regions_spec(regions_part, Seq::empty())));
        while pos < n
            invariant
                parse_vector_spec(s@) == token_outcome(version, global, parse_regions_spec(regions_part, Seq::empty())),
                cs@ == s@,
                n == cs.len(),
                pos <= n,
                sorted_regions(regions@),
                parse_regions_spec(regions_part, Seq::empty()) == parse_regions_spec(
                    cs@.subrange(pos as int, n as int),
                    regions@,
                ),
            decreases n - pos,
        {
            let ghost r = cs@.subrange(pos as int, n as int);
            let ghost start = pos;
            let e = find_char(&cs, pos, n, '#');
            assert(e < n ==> r.subrange(0, e - pos) =~= cs@.subrange(pos as int, e as int));
            assert(e == n ==> r =~= cs@.subrange(pos as int, e as int));
            let (k, v) = match parse_component(s, &cs, pos, e) {
                Ok(kv) => kv,
                Err(err) => {
                    return Err(err);
                },
            };
            insert_region_exec(&mut regions, k, v);
            pos = if e == n {
                n
            } else {
                e + 1
            };
            assert(e < n ==> r.subrange(e - start + 1, r.len() as int) =~= cs@.subrange(
                pos as int,
                n as int,
            ));
            assert(cs@.subrange(n as int, n as int) =~= Seq::<char>::empty());
        }
        Ok(VectorSessionToken { version, global_lsn: Lsn(global), regional_lsns: regions })
    }

    /// The LSN of the given region, if the token has one.
    pub fn regional_lsn(&self, region: RegionId) -> (r: Option<Lsn>)
        ensures
            r == lookup(self.regional_lsns@, region.0),
    {
        find_region(&self.regional_lsns, region.0)
    }

    /// Writes the token in its text form.
    pub fn to_string(&self) -> (r: String)
        ensures
            r@ == token_text(self@),
    {
        let mut out = String::new();
        append_decimal(&mut out, self.version);
        proof {
            reveal_strlit("#");
            reveal_strlit("=");
        }
        assert("#"@ =~= seq!['#']);
        assert("="@ =~= seq!['=']);
        out.append("#");
        append_decimal(&mut out, self.global_lsn.0);
        let ghost head = out@;
        assert(self.regional_lsns@.take(0) =~= Seq::<(RegionId, Lsn)>::empty());
        let mut i: usize = 0;
        while i < self.regional_lsns.len()
            invariant
                0 <= i <= self.regional_lsns.len(),
                head == decimal(self.version as nat) + seq!['#'] + decimal(
                    self.global_lsn.0 as nat,
                ),
                out@ == head + regions_text(self.regional_lsns@.take(i as int)),
                "#"@ == seq!['#'],
                "="@ == seq!['='],
            decreases self.regional_lsns.len() - i,
        {
            let (k, l) = self.regional_lsns[i];
            out.append("#");
            append_decimal(&mut out, k.0 as u64);
            out.append("=");
            append_decimal(&mut out, l.0);
            proof {
                let regs = self.regional_lsns@;
                lemma_regions_text_push(regs.take(i as int), regs[i as int]);
                assert(regs.take(i as int + 1) =~= regs.take(i as int).push(regs[i as int]));
                assert(out@ =~= head + regions_text(regs.take(i as int + 1)));
            }
            i = i + 1;
        }
        assert(self.regional_lsns@.take(i as int) =~= self.regional_lsns@);
        out
    }

    /// Merges two tokens into one that holds the progress of both; the
    /// operation is commutative.
    ///
    /// Fails with `TokensCannotBeMerged` exactly when the versions are
    /// equal and the region sets differ.
    pub fn merge(self, other: VectorSessionToken) -> (r: Result<VectorSessionToken, Error>)
        requires
            self.wf(),
            other.wf(),
        ensures
            r is Ok <==> merge_spec(self@, other@) is Some,
            r is Ok ==> r->Ok_0@ == merge_spec(self@, other@)->Some_0 && r->Ok_0.wf(),
            r is Err ==> r->Err_0@ == ErrorView::TokensCannotBeMerged(merge_refusal()),
    {
        let (higher, lower) = if self.version >= other.version {
            (self, other)
        } else {
            (other, self)
        };
        if higher.version == lower.version {
            if !same_region_keys(&higher.regional_lsns, &lower.regional_lsns) {
                return Err(
                    Error::TokensCannotBeMerged(
                        String::from_str("tokens have same version but different regions"),
                    ),
                );
            }
        }
        let regions = merge_regions_exec(&higher.regional_lsns, &lower.regional_lsns);
        let global = if higher.version == lower.version && lower.global_lsn.0
            > higher.global_lsn.0 {
            lower.global_lsn
        } else {
            higher.global_lsn
        };
        Ok(VectorSessionToken { version: higher.version, global_lsn: global, regional_lsns: regions })
    }

    /// Whether `other` represents forward progress relative to `self`.
    ///
    /// A higher version always advances and a lower one never does. On equal
    /// versions the region sets must match, else this fails with
    /// `InvalidRegions` carrying both texts; then `other` advances when its
    /// global LSN and each of its regional LSNs are at least those of `self`.
    pub fn can_advance_to(&self, other: &VectorSessionToken) -> (r: Result<bool, Error>)
        requires
            self.wf(),
            other.wf(),
        ensures
            r is Ok <==> advance_spec(self@, other@) is Some,
            r is Ok ==> r->Ok_0 == advance_spec(self@, other@)->Some_0,
            r is Err ==> r->Err_0@ == (ErrorView::InvalidRegions {
                current: token_text(self@),
                other: token_text(other@),
            }),
    {
        if other.version > self.version {
            return Ok(true);
        }
        if other.version < self.version {
            return Ok(false);
        }
        if !same_region_keys(&self.regional_lsns, &other.regional_lsns) {
            return Err(Error::InvalidRegions { current: self.to_string(), other: other.to_string() });
        }
        proof {
            lemma_sorted_same_keys(self.regional_lsns@, other.regional_lsns@);
        }
        let ghost cur = self.regional_lsns@;
        let ghost oth = other.regional_lsns@;
        if other.global_lsn.0 < self.global_lsn.0 {
            return Ok(false);
        }
        let mut i: usize = 0;
        while i < self.regional_lsns.len()
            invariant
                cur == self.regional_lsns@,
                oth == other.regional_lsns@,
                sorted_regions(cur),
                sorted_regions(oth),
                cur.len() == oth.len(),
                forall|j: int| 0 <= j < cur.len() ==> cur[j].0.0 == oth[j].0.0,
                self.version == other.version,
                key_set(cur) == key_set(oth),
                other.global_lsn.0 >= self.global_lsn.0,
                0 <= i <= cur.len(),
                forall|j: int| 0 <= j < i ==> oth[j].1.0 >= cur[j].1.0,
            decreases cur.len() - i,
        {
            if other.regional_lsns[i].1.0 < self.regional_lsns[i].1.0 {
                proof {
                    let k = cur[i as int].0.0;
                    lemma_lookup_sorted(cur, i as int);
                    lemma_lookup_sorted(oth, i as int);
                    assert(key_set(cur).contains(k));
                }
                return Ok(false);
            }
            i = i + 1;
        }
        proof {
            assert forall|k: u32| #[trigger] key_set(cur).contains(k) implies lookup(
                oth,
                k,
            ).unwrap().0 >= lookup(cur, k).unwrap().0 by {
                let j = choose|j: int| 0 <= j < cur.len() && #[trigger] cur[j].0.0 == k;
                lemma_lookup_sorted(cur, j);
                lemma_lookup_sorted(oth, j);
            }
        }
        Ok(true)
    }
}


impl std::str::FromStr for VectorSessionToken {
    type Err = Error;

    fn from_str(s: &str) -> Result<VectorSessionToken, Error> {
        VectorSessionToken::from_str(s)
    }
}

proof fn lemma_insert_region_bound(s: Seq<(RegionId, Lsn)>, k: RegionId, v: Lsn, b: u32)
    requires
        forall|j: int| 0 <= j < s.len() ==> s[j].0.0 < b,
        k.0 < b,
    ensures
        forall|j: int|
            0 <= j < insert_region(s, k, v).len() ==> #[trigger] insert_region(s, k, v)[j].0.0
                < b,
    decreases s.len(),
{
    let r = insert_region(s, k, v);
    if s.len() == 0 {
    } else if s.last().0.0 < k.0 {
        assert forall|j: int| 0 <= j < r.len() implies #[trigger] r[j].0.0 < b by {
            if j < s.len() {
                assert(r[j] == s[j]);
            }
        }
    } else if s.last().0.0 == k.0 {
        assert forall|j: int| 0 <= j < r.len() implies #[trigger] r[j].0.0 < b by {
            if j < s.len() - 1 {
                assert(r[j] == s[j]);
            }
        }
    } else {
        let t = s.drop_last();
        lemma_insert_region_bound(t, k, v, b);
        let inner = insert_region(t, k, v);
        assert forall|j: int| 0 <= j < r.len() implies #[trigger] r[j].0.0 < b by {
            if j < inner.len() {
                assert(r[j] == inner[j]);
            } else {
                assert(r[j] == s.last());
            }
        }
    }
}

/// Putting an entry into a sorted region list keeps it sorted.
pub proof fn lemma_insert_region_sorted(s: Seq<(RegionId, Lsn)>, k: RegionId, v: Lsn)
    requires
        sorted_regions(s),
    ensures
        sorted_regions(insert_region(s, k, v)),
    decreases s.len(),
{
    if s.len() > 0 && s.last().0.0 > k.0 {
        let t = s.drop_last();
        lemma_insert_region_sorted(t, k, v);
        lemma_insert_region_bound(t, k, v, s.last().0.0);
    }
}

proof fn lemma_parse_regions_sorted(r: Seq<char>, acc: Seq<(RegionId, Lsn)>)
    requires
        sorted_regions(acc),
    ensures
        parse_regions_spec(r, acc) is Ok ==> sorted_regions(parse_regions_spec(r, acc)->Ok_0),
    decreases r.len(),
{
    if r.len() > 0 {
        let e = index_of(r, '#');
        lemma_index_of(r, '#');
        let comp = if e < 0 {
            r
        } else {
            r.subrange(0, e)
        };
        if let Ok(kv) = parse_component_spec(comp) {
            lemma_insert_region_sorted(acc, kv.0, kv.1);
            if e >= 0 {
                lemma_parse_regions_sorted(
                    r.subrange(e + 1, r.len() as int),
                    insert_region(acc, kv.0, kv.1),
                );
            }
        }
    }
}

/// Every token that parsing yields is well formed.
pub proof fn lemma_parse_wf(s: Seq<char>)
    ensures
        parse_vector_spec(s) is Ok ==> parse_vector_spec(s)->Ok_0.wf(),
{
    if s.len() > 0 {
        let p = index_of(s, '#');
        lemma_index_of(s, '#');
        if p >= 0 {
            let rest = s.subrange(p + 1, s.len() as int);
            let q = index_of(rest, '#');
            lemma_index_of(rest, '#');
            let regions_part = if q < 0 {
                Seq::empty()
            } else {
                rest.subrange(q + 1, rest.len() as int)
            };
            lemma_parse_regions_sorted(regions_part, Seq::empty());
        }
    }
}

/// The first '#' of `a + ['#'] + b` follows `a` when `a` is made of digits.
proof fn lemma_hash_after_digits(a: Seq<char>, b: Seq<char>, c: char)
    requires
        all_digits(a),
        c == '#' || c == '=',
    ensures
        index_of(a + seq![c] + b, c) == a.len(),
{
    let t = a + seq![c] + b;
    assert forall|j: int| 0 <= j < a.len() implies t[j] != c by {
        assert(t[j] == a[j]);
    }
    lemma_index_of_at(t, c, a.len() as int);
}

proof fn lemma_no_hash_in_digits(a: Seq<char>, c: char)
    requires
        all_digits(a),
        c == '#' || c == '=',
    ensures
        index_of(a, c) == -1,
{
    lemma_index_of_at(a, c, a.len() as int);
}

proof fn lemma_parse_component_round_trip(e: (RegionId, Lsn))
    ensures
        parse_component_spec(region_body(e)) == Ok::<(RegionId, Lsn), ErrorView>(e),
{
    let kd = decimal(e.0.0 as nat);
    let vd = decimal(e.1.0 as nat);
    lemma_decimal(e.0.0 as nat);
    lemma_decimal(e.1.0 as nat);
    let c = region_body(e);
    assert(c =~= kd + seq!['='] + vd);
    lemma_hash_after_digits(kd, vd, '=');
    assert(c.subrange(0, kd.len() as int) =~= kd);
    assert(c.subrange(kd.len() as int + 1, c.len() as int) =~= vd);
}

proof fn lemma_regions_text_first(regs: Seq<(RegionId, Lsn)>)
    requires
        regs.len() > 0,
    ensures
        regions_text(regs) == seq!['#'] + (region_body(regs[0]) + regions_text(regs.drop_first())),
        regions_text(regs)[0] == '#',
{
    assert(regions_text(regs) =~= seq!['#'] + (region_body(regs[0]) + regions_text(
        regs.drop_first(),
    )));
}

proof fn lemma_parse_regions_round_trip(regs: Seq<(RegionId, Lsn)>, acc: Seq<(RegionId, Lsn)>)
    requires
        regs.len() > 0,
        sorted_regions(acc + regs),
    ensures
        parse_regions_spec(region_body(regs[0]) + regions_text(regs.drop_first()), acc) == Ok::<
            Seq<(RegionId, Lsn)>,
            ErrorView,
        >(acc + regs),
    decreases regs.len(),
{
    let e0 = regs[0];
    let tail = regs.drop_first();
    let body = region_body(e0);
    let r = body + regions_text(tail);
    lemma_decimal(e0.0.0 as nat);
    lemma_decimal(e0.1.0 as nat);
    assert(all_digits(body) ==> true);
    assert forall|j: int| 0 <= j < body.len() implies r[j] != '#' by {
        assert(r[j] == body[j]);
        let kd = decimal(e0.0.0 as nat);
        if j < kd.len() {
            assert(body[j] == kd[j]);
        } else if j > kd.len() {
            assert(body[j] == decimal(e0.1.0 as nat)[j - kd.len() - 1]);
        }
    }
    lemma_parse_component_round_trip(e0);
    assert((acc + regs)[acc.len() as int] == e0);
    if acc.len() > 0 {
        assert(acc.last() == (acc + regs)[acc.len() - 1]);
    }
    assert(insert_region(acc, e0.0, e0.1) == acc.push(e0));
    if tail.len() == 0 {
        lemma_index_of_at(r, '#', r.len() as int);
        assert(r =~= body);
        assert(acc.push(e0) =~= acc + regs);
    } else {
        lemma_regions_text_first(tail);
        lemma_index_of_at(r, '#', body.len() as int);
        assert(r.subrange(0, body.len() as int) =~= body);
        let next = r.subrange(body.len() as int + 1, r.len() as int);
        assert(next =~= region_body(tail[0]) + regions_text(tail.drop_first()));
        assert(acc.push(e0) + tail =~= acc + regs);
        lemma_parse_regions_round_trip(tail, acc.push(e0));
    }
}

/// Parsing the text of a well-formed token gives back that token.
pub proof fn lemma_format_parse(t: TokenView)
    requires
        t.wf(),
    ensures
        parse_vector_spec(token_text(t)) == Ok::<TokenView, ErrorView>(t),
{
    let vd = decimal(t.version as nat);
    let gd = decimal(t.global_lsn.0 as nat);
    lemma_decimal(t.version as nat);
    lemma_decimal(t.global_lsn.0 as nat);
    let s = token_text(t);
    let rt = regions_text(t.regions);
    assert(s =~= vd + seq!['#'] + (gd + rt));
    lemma_hash_after_digits(vd, gd + rt, '#');
    assert(s.subrange(0, vd.len() as int) =~= vd);
    let rest = s.subrange(vd.len() as int + 1, s.len() as int);
    assert(rest =~= gd + rt);
    assert(index_of(s, '#') == vd.len());
    assert(digits_value(vd) == t.version);
    assert(digits_value(gd) == t.global_lsn.0);
    if t.regions.len() == 0 {
        assert(rt =~= Seq::<char>::empty());
        assert(rest =~= gd);
        lemma_no_hash_in_digits(gd, '#');
        assert(t.regions =~= Seq::<(RegionId, Lsn)>::empty());
        assert(parse_regions_spec(Seq::empty(), Seq::empty()) == Ok::<
            Seq<(RegionId, Lsn)>,
            ErrorView,
        >(t.regions));
    } else {
        lemma_regions_text_first(t.regions);
        assert(rest =~= gd + seq!['#'] + (region_body(t.regions[0]) + regions_text(
            t.regions.drop_first(),
        )));
        lemma_hash_after_digits(
            gd,
            region_body(t.regions[0]) + regions_text(t.regions.drop_first()),
            '#',
        );
        assert(rest.subrange(0, gd.len() as int) =~= gd);
        assert(rest.subrange(gd.len() as int + 1, rest.len() as int) =~= region_body(t.regions[0])
            + regions_text(t.regions.drop_first()));
        assert(Seq::<(RegionId, Lsn)>::empty() + t.regions =~= t.regions);
        lemma_parse_regions_round_trip(t.regions, Seq::empty());
    }
}

/// Round trip: whenever a text parses, the text of what it parses to
/// parses to the same value.
pub proof fn lemma_round_trip(s: Seq<char>)
    requires
        parse_vector_spec(s) is Ok,
    ensures
        parse_vector_spec(token_text(parse_vector_spec(s)->Ok_0)) == parse_vector_spec(s),
{
    lemma_parse_wf(s);
    lemma_format_parse(parse_vector_spec(s)->Ok_0);
}

/// Merge is commutative on well-formed tokens.
pub proof fn lemma_merge_commutative(a: TokenView, b: TokenView)
    requires
        a.wf(),
        b.wf(),
    ensures
        merge_spec(a, b) == merge_spec(b, a),
{
    if a.version == b.version && key_set(a.regions) == key_set(b.regions) {
        lemma_sorted_same_keys(a.regions, b.regions);
        let ra = merge_regions(a.regions, b.regions);
        let rb = merge_regions(b.regions, a.regions);
        assert forall|i: int| 0 <= i < ra.len() implies ra[i] == rb[i] by {
            lemma_lookup_sorted(a.regions, i);
            lemma_lookup_sorted(b.regions, i);
            assert(a.regions[i].0 == b.regions[i].0);
        }
        assert(ra =~= rb);
    }
}

/// For equal versions and region sets, the merge is progress from both
/// inputs.
pub proof fn lemma_merge_dominates(a: TokenView, b: TokenView)
    requires
        a.wf(),
        b.wf(),
        a.version == b.version,
        key_set(a.regions) == key_set(b.regions),
    ensures
        merge_spec(a, b) is Some,
        advance_spec(a, merge_spec(a, b)->Some_0) == Some(true),
        advance_spec(b, merge_spec(a, b)->Some_0) == Some(true),
{
    lemma_sorted_same_keys(a.regions, b.regions);
    let m = merge_spec(a, b)->Some_0;
    let mr = m.regions;
    assert(mr.len() == a.regions.len());
    assert forall|i: int| 0 <= i < mr.len() implies mr[i].0 == a.regions[i].0 && mr[i].1.0
        >= a.regions[i].1.0 && mr[i].1.0 >= b.regions[i].1.0 by {
        lemma_lookup_sorted(b.regions, i);
    }
    assert(sorted_regions(mr));
    assert forall|k: u32| key_set(mr).contains(k) == key_set(a.regions).contains(k) by {
        if key_set(mr).contains(k) {
            let j = choose|j: int| 0 <= j < mr.len() && #[trigger] mr[j].0.0 == k;
            assert(a.regions[j].0.0 == k);
        }
        if key_set(a.regions).contains(k) {
            let j = choose|j: int| 0 <= j < a.regions.len() && #[trigger] a.regions[j].0.0 == k;
            assert(mr[j].0.0 == k);
        }
    }
    assert(key_set(mr) =~= key_set(a.regions));
    assert forall|k: u32| #[trigger] key_set(a.regions).contains(k) implies lookup(mr, k).unwrap().0
        >= lookup(a.regions, k).unwrap().0 && lookup(mr, k).unwrap().0 >= lookup(
        b.regions,
        k,
    ).unwrap().0 by {
        let j = choose|j: int| 0 <= j < a.regions.len() && #[trigger] a.regions[j].0.0 == k;
        lemma_lookup_sorted(a.regions, j);
        lemma_lookup_sorted(b.regions, j);
        lemma_lookup_sorted(mr, j);
    }
}

/// Where `insert_region` puts region `k`: after every entry whose id is at
/// most `k`.
pub open spec fn insert_pos(s: Seq<(RegionId, Lsn)>, k: u32) -> int
    decreases s.len(),
{
    if s.len() == 0 || s.last().0.0 <= k {
        s.len() as int
    } else {
        insert_pos(s.drop_last(), k)
    }
}

proof fn lemma_insert_pos(s: Seq<(RegionId, Lsn)>, k: u32)
    ensures
        0 <= insert_pos(s, k) <= s.len(),
        forall|j: int| insert_pos(s, k) <= j < s.len() ==> s[j].0.0 > k,
        insert_pos(s, k) == 0 || s[insert_pos(s, k) - 1].0.0 <= k,
    decreases s.len(),
{
    if s.len() > 0 && s.last().0.0 > k {
        let t = s.drop_last();
        lemma_insert_pos(t, k);
        assert forall|j: int| insert_pos(s, k) <= j < s.len() implies s[j].0.0 > k by {
            if j < t.len() {
                assert(s[j] == t[j]);
            }
        }
    }
}

proof fn lemma_lookup_absent(s: Seq<(RegionId, Lsn)>, k: u32)
    requires
        forall|j: int| 0 <= j < s.len() ==> s[j].0.0 != k,
    ensures
        lookup(s, k) is None,
{
    lemma_lookup_at(s, k, s.len() as int);
}

/// A region put into a sorted list afterwards looks up to the LSN just
/// put: a later occurrence of a region replaces an earlier one.
pub proof fn lemma_insert_region_lookup(s: Seq<(RegionId, Lsn)>, k: RegionId, v: Lsn)
    requires
        sorted_regions(s),
    ensures
        lookup(insert_region(s, k, v), k.0) == Some(v),
{
    let p = insert_pos(s, k.0);
    lemma_insert_pos(s, k.0);
    lemma_insert_region_at(s, k, v, p);
    lemma_insert_region_sorted(s, k, v);
    let r = insert_region(s, k, v);
    if p > 0 && s[p - 1].0.0 == k.0 {
        lemma_lookup_sorted(r, p - 1);
    } else {
        lemma_lookup_sorted(r, p);
    }
}

/// Putting a region into a sorted list leaves what every other region
/// looks up to.
pub proof fn lemma_insert_region_lookup_other(
    s: Seq<(RegionId, Lsn)>,
    k: RegionId,
    v: Lsn,
    other: u32,
)
    requires
        sorted_regions(s),
        other != k.0,
    ensures
        lookup(insert_region(s, k, v), other) == lookup(s, other),
{
    let p = insert_pos(s, k.0);
    lemma_insert_pos(s, k.0);
    lemma_insert_region_at(s, k, v, p);
    lemma_insert_region_sorted(s, k, v);
    let r = insert_region(s, k, v);
    let replaced = p > 0 && s[p - 1].0.0 == k.0;
    if exists|j: int| 0 <= j < s.len() && #[trigger] s[j].0.0 == other {
        let j = choose|j: int| 0 <= j < s.len() && #[trigger] s[j].0.0 == other;
        lemma_lookup_sorted(s, j);
        if replaced || j < p {
            assert(r[j] == s[j]);
            lemma_lookup_sorted(r, j);
        } else {
            assert(r[j + 1] == s[j]);
            lemma_lookup_sorted(r, j + 1);
        }
    } else {
        lemma_lookup_absent(s, other);
        assert forall|j: int| 0 <= j < r.len() implies r[j].0.0 != other by {
            if replaced {
                if j != p - 1 {
                    assert(r[j] == s[j]);
                }
            } else if j < p {
                assert(r[j] == s[j]);
            } else if j > p {
                assert(r[j] == s[j - 1]);
            }
        }
        lemma_lookup_absent(r, other);
    }
}

} // verus!
