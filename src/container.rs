//! The session of one container: the latest partition token seen for each
//! partition key range.
use vstd::prelude::*;

use crate::error::{Error, ErrorView};
use crate::ids::PartitionKeyRangeId;
use crate::partition::{
    parse_partition_spec, partition_text, PartitionSessionToken, PartitionTokenView,
};
use crate::text::{
    chars_of, find_char, index_of, lemma_index_of, lemma_lex_total, lemma_lex_trans, lex_le,
    lex_less, lex_lt, trim, trim_bounds,
};

verus! {

broadcast use {vstd::string::group_string_axioms, vstd::seq_lib::group_to_multiset_ensures};

/// Index of the last entry of partition `id` in `s`, or -1.
pub open spec fn partition_index(s: Seq<PartitionTokenView>, id: Seq<char>) -> int
    decreases s.len(),
{
    if s.len() == 0 {
        -1
    } else if s.last().pkrange_id == id {
        s.len() - 1
    } else {
        partition_index(s.drop_last(), id)
    }
}

/// The entry of partition `id` in `s`, if there is one.
pub open spec fn partition_entry(s: Seq<PartitionTokenView>, id: Seq<char>) -> Option<
    PartitionTokenView,
> {
    let i = partition_index(s, id);
    if i < 0 {
        None
    } else {
        Some(s[i])
    }
}

/// `s` with `p` replacing the entry of its partition, or added at the end.
pub open spec fn upsert(s: Seq<PartitionTokenView>, p: PartitionTokenView) -> Seq<
    PartitionTokenView,
> {
    let i = partition_index(s, p.pkrange_id);
    if i < 0 {
        s.push(p)
    } else {
        s.update(i, p)
    }
}

/// The effect of a container token text on the entries `entries`: each
/// comma-separated segment, trimmed, is parsed and put in place of its
/// partition's entry; empty segments are skipped. Stops at the first
/// segment that does not parse, with the entries updated so far and the
/// error.
pub open spec fn apply_segments(s: Seq<char>, entries: Seq<PartitionTokenView>) -> (Seq<
    PartitionTokenView,
>, Option<ErrorView>)
    decreases s.len(),
    via apply_segments_decreases
{
    let e = index_of(s, ',');
    let seg = if e < 0 {
        s
    } else {
        s.subrange(0, e)
    };
    let t = trim(seg);
    if t.len() == 0 {
        if e < 0 {
            (entries, None)
        } else {
            apply_segments(s.subrange(e + 1, s.len() as int), entries)
        }
    } else {
        match parse_partition_spec(t) {
            Err(x) => (entries, Some(x)),
            Ok(p) => if e < 0 {
                (upsert(entries, p), None)
            } else {
                apply_segments(s.subrange(e + 1, s.len() as int), upsert(entries, p))
            },
        }
    }
}

/// The effect of a container token text, where an empty text fails with
/// `EmptyInput` and changes nothing.
pub open spec fn set_effect(token: Seq<char>, entries: Seq<PartitionTokenView>) -> (Seq<
    PartitionTokenView,
>, Option<ErrorView>) {
    if token.len() == 0 {
        (entries, Some(ErrorView::EmptyInput))
    } else {
        apply_segments(token, entries)
    }
}

#[via_fn]
proof fn apply_segments_decreases(s: Seq<char>, entries: Seq<PartitionTokenView>) {
    lemma_index_of(s, ',');
}

/// The texts of `ts` joined by commas.
pub open spec fn join_commas(ts: Seq<Seq<char>>) -> Seq<char>
    decreases ts.len(),
{
    if ts.len() == 0 {
        Seq::empty()
    } else if ts.len() == 1 {
        ts[0]
    } else {
        join_commas(ts.drop_last()) + seq![','] + ts.last()
    }
}

pub open spec fn lex_sorted(ts: Seq<Seq<char>>) -> bool {
    forall|i: int, j: int| 0 <= i < j < ts.len() ==> lex_le(ts[i], ts[j])
}

/// The texts of the entries of `s`, in the order of `s`.
pub open spec fn entry_texts(s: Seq<PartitionTokenView>) -> Seq<Seq<char>> {
    s.map_values(|p: PartitionTokenView| partition_text(p))
}

/// The container token text of `s`: its entries' texts in lexicographic
/// order, joined by commas.
pub open spec fn is_container_text(s: Seq<PartitionTokenView>, text: Seq<char>) -> bool {
    exists|ts: Seq<Seq<char>>|
        #![trigger join_commas(ts)]
        lex_sorted(ts) && ts.to_multiset() == entry_texts(s).to_multiset() && text == join_commas(
            ts,
        )
}

pub open spec fn string_views(v: Seq<String>) -> Seq<Seq<char>> {
    v.map_values(|s: String| s@)
}

proof fn lemma_partition_index_at(s: Seq<PartitionTokenView>, id: Seq<char>, i: int)
    requires
        -1 <= i < s.len(),
        i == -1 || s[i].pkrange_id == id,
        forall|j: int| i < j < s.len() ==> s[j].pkrange_id != id,
    ensures
        partition_index(s, id) == i,
    decreases s.len(),
{
    if s.len() > 0 && i < s.len() - 1 {
        lemma_partition_index_at(s.drop_last(), id, i);
    }
}

/// Setting a partition's token replaces its entry: the partition then
/// holds exactly the new token, whatever it held before.
pub proof fn lemma_upsert_replaces(s: Seq<PartitionTokenView>, p: PartitionTokenView)
    ensures
        partition_entry(upsert(s, p), p.pkrange_id) == Some(p),
{
    let i = partition_index(s, p.pkrange_id);
    lemma_partition_index(s, p.pkrange_id);
    let u = upsert(s, p);
    if i < 0 {
        lemma_partition_index_at(u, p.pkrange_id, s.len() as int);
    } else {
        assert forall|j: int| i < j < u.len() implies u[j].pkrange_id != p.pkrange_id by {
            assert(u[j] == s[j]);
        }
        lemma_partition_index_at(u, p.pkrange_id, i);
    }
}

/// Setting a partition's token leaves the entries of other partitions.
pub proof fn lemma_upsert_keeps_others(
    s: Seq<PartitionTokenView>,
    p: PartitionTokenView,
    id: Seq<char>,
)
    requires
        id != p.pkrange_id,
    ensures
        partition_entry(upsert(s, p), id) == partition_entry(s, id),
{
    let i = partition_index(s, p.pkrange_id);
    let k = partition_index(s, id);
    lemma_partition_index(s, p.pkrange_id);
    lemma_partition_index(s, id);
    let u = upsert(s, p);
    assert forall|j: int| k < j < u.len() implies u[j].pkrange_id != id by {
        if j < s.len() && j != i {
            assert(u[j] == s[j]);
        }
    }
    if k >= 0 {
        assert(u[k] == s[k]);
    }
    lemma_partition_index_at(u, id, k);
}

proof fn lemma_partition_index(s: Seq<PartitionTokenView>, id: Seq<char>)
    ensures
        -1 <= partition_index(s, id) < s.len(),
        partition_index(s, id) >= 0 ==> s[partition_index(s, id)].pkrange_id == id,
        forall|j: int| partition_index(s, id) < j < s.len() ==> s[j].pkrange_id != id,
    decreases s.len(),
{
    if s.len() > 0 && s.last().pkrange_id != id {
        let t = s.drop_last();
        lemma_partition_index(t, id);
        assert forall|j: int| partition_index(s, id) < j < s.len() implies s[j].pkrange_id != id by {
            if j < t.len() {
                assert(s[j] == t[j]);
            }
        }
    }
}

/// The current session of one container.
#[derive(Debug)]
pub struct ContainerSession {
    partition_tokens: Vec<PartitionSessionToken>,
}

impl View for ContainerSession {
    type V = Seq<PartitionTokenView>;

    closed spec fn view(&self) -> Seq<PartitionTokenView> {
        self.partition_tokens@.map_values(|t: PartitionSessionToken| t@)
    }
}

impl ContainerSession {
    /// Creates an empty container session.
    pub fn new() -> (r: ContainerSession)
        ensures
            r@ == Seq::<PartitionTokenView>::empty(),
    {
        let r = ContainerSession { partition_tokens: Vec::new() };
        assert(r@ =~= Seq::<PartitionTokenView>::empty());
        r
    }

    fn find(&self, id: &String) -> (r: Option<usize>)
        ensures
            partition_index(self@, id@) == (match r {
                Some(i) => i as int,
                None => -1,
            }),
            r is Some ==> r->Some_0 < self@.len() && self@[r->Some_0 as int].pkrange_id == id@,
    {
        let mut j = self.partition_tokens.len();
        while j > 0 && self.partition_tokens[j - 1].pkrange_id.0 != *id
            invariant
                0 <= j <= self.partition_tokens.len(),
                forall|k: int|
                    j <= k < self.partition_tokens.len() ==> self@[k].pkrange_id != id@,
            decreases j,
        {
            j = j - 1;
        }
        proof {
            lemma_partition_index_at(self@, id@, j - 1);
        }
        if j == 0 {
            None
        } else {
            Some(j - 1)
        }
    }

    fn upsert_token(&mut self, p: PartitionSessionToken)
        ensures
            final(self)@ == upsert(old(self)@, p@),
    {
        let ghost pv = p@;
        match self.find(&p.pkrange_id.0) {
            Some(i) => {
                self.partition_tokens.set(i, p);
                assert(self@ =~= upsert(old(self)@, pv));
            },
            None => {
                self.partition_tokens.push(p);
                assert(self@ =~= upsert(old(self)@, pv));
            },
        }
    }

    /// Takes in a container token text: a comma-separated list of
    /// partition token texts such as `"42:1#123#4=500,43:1#124#4=501"`.
    ///
    /// Fails with `EmptyInput` on an empty text. Each segment, trimmed of
    /// white space, replaces the entry of its partition; empty segments are
    /// skipped. At the first segment that does not parse this stops with
    /// that segment's error, keeping the segments before it.
    pub fn set_session_token(&mut self, token: &str) -> (r: Result<(), Error>)
        ensures
            final(self)@ == set_effect(token@, old(self)@).0,
            r is Err <==> set_effect(token@, old(self)@).1 is Some,
            r is Err ==> r->Err_0@ == set_effect(token@, old(self)@).1->Some_0,
    {
        if token.is_empty() {
            return Err(Error::EmptyInput);
        }
        let cs = chars_of(token);
        let n = cs.len();
        let mut pos: usize = 0;
        assert(cs@.subrange(0, n as int) =~= token@);
        loop
            invariant
                cs@ == token@,
                token@.len() > 0,
                n == cs.len(),
                pos <= n,
                apply_segments(token@, old(self)@) == apply_segments(
                    cs@.subrange(pos as int, n as int),
                    self@,
                ),
            decreases n + 1 - pos,
        {
            let ghost s = cs@.subrange(pos as int, n as int);
            let ghost before = self@;
            let e = find_char(&cs, pos, n, ',');
            let ghost seg = if e == n {
                s
            } else {
                s.subrange(0, e - pos)
            };
            assert(seg =~= cs@.subrange(pos as int, e as int));
            let (a, b) = trim_bounds(&cs, pos, e);
            if a < b {
                match PartitionSessionToken::from_str(token.substring_char(a, b)) {
                    Err(x) => {
                        return Err(x);
                    },
                    Ok(p) => {
                        self.upsert_token(p);
                    },
                }
            }
            if e == n {
                return Ok(());
            }
            assert(s.subrange(e - pos + 1, s.len() as int) =~= cs@.subrange(e + 1, n as int));
            pos = e + 1;
        }
    }

    /// The container token text: the texts of all entries, sorted
    /// lexicographically and joined by commas; `None` without entries.
    pub fn get_session_token(&self) -> (r: Option<String>)
        ensures
            r is None <==> self@.len() == 0,
            r is Some ==> is_container_text(self@, r->Some_0@),
    {
        if self.partition_tokens.len() == 0 {
            return None;
        }
        let mut sorted: Vec<String> = Vec::new();
        let mut i: usize = 0;
        while i < self.partition_tokens.len()
            invariant
                0 <= i <= self.partition_tokens.len(),
                lex_sorted(string_views(sorted@)),
                string_views(sorted@).to_multiset() == entry_texts(self@.take(i as int)).to_multiset(),
            decreases self.partition_tokens.len() - i,
        {
            let t = self.partition_tokens[i].to_string();
            let mut j: usize = 0;
            while j < sorted.len() && !lex_less(t.as_str(), sorted[j].as_str())
                invariant
                    0 <= j <= sorted.len(),
                    forall|k: int| 0 <= k < j ==> !lex_lt(t@, #[trigger] sorted@[k]@),
                decreases sorted.len() - j,
            {
                j = j + 1;
            }
            let ghost old_views = string_views(sorted@);
            sorted.insert(j, t);
            proof {
                let nv = string_views(sorted@);
                assert(nv =~= old_views.insert(j as int, t@));
                assert forall|x: int, y: int| 0 <= x < y < nv.len() implies lex_le(
                    nv[x],
                    nv[y],
                ) by {
                    if x < j && y == j {
                        lemma_lex_total(t@, old_views[x]);
                    } else if x == j {
                        if y - 1 != j {
                            assert(lex_lt(t@, old_views[j as int]));
                            assert(lex_le(old_views[j as int], old_views[y - 1]));
                            if old_views[j as int] != old_views[y - 1] {
                                lemma_lex_trans(t@, old_views[j as int], old_views[y - 1]);
                            }
                        }
                    } else if x < j && y > j {
                    }
                }
                assert(self@.take(i as int + 1) =~= self@.take(i as int).push(self@[i as int]));
                assert(entry_texts(self@.take(i as int + 1)) =~= entry_texts(
                    self@.take(i as int),
                ).push(t@));
            }
            i = i + 1;
        }
        let mut out = String::new();
        proof {
            reveal_strlit(",");
        }
        assert(","@ =~= seq![',']);
        let mut k: usize = 0;
        assert(string_views(sorted@).take(0) =~= Seq::<Seq<char>>::empty());
        while k < sorted.len()
            invariant
                0 <= k <= sorted.len(),
                out@ == join_commas(string_views(sorted@).take(k as int)),
                ","@ == seq![','],
            decreases sorted.len() - k,
        {
            if k > 0 {
                out.append(",");
            }
            out.append(sorted[k].as_str());
            proof {
                let vs = string_views(sorted@);
                assert(vs.take(k as int + 1).drop_last() =~= vs.take(k as int));
                if k == 0 {
                    assert(out@ =~= join_commas(vs.take(1)));
                } else {
                    assert(out@ =~= join_commas(vs.take(k as int + 1)));
                }
            }
            k = k + 1;
        }
        proof {
            let ts = string_views(sorted@);
            assert(ts.take(k as int) =~= ts);
            assert(self@.take(i as int) =~= self@);
            assert(lex_sorted(ts) && ts.to_multiset() == entry_texts(self@).to_multiset() && out@
                == join_commas(ts));
        }
        Some(out)
    }

    /// The text of the entry of the given partition, if there is one.
    pub fn get_partition_session_token(&self, pk_range_id: &PartitionKeyRangeId) -> (r: Option<
        String,
    >)
        ensures
            r is None <==> partition_entry(self@, pk_range_id.0@) is None,
            r is Some ==> r->Some_0@ == partition_text(
                partition_entry(self@, pk_range_id.0@)->Some_0,
            ),
    {
        match self.find(&pk_range_id.0) {
            Some(i) => Some(self.partition_tokens[i].to_string()),
            None => None,
        }
    }

    /// Removes every entry.
    pub fn clear_session(&mut self)
        ensures
            final(self)@ == Seq::<PartitionTokenView>::empty(),
    {
        self.partition_tokens.clear();
        assert(self@ =~= Seq::<PartitionTokenView>::empty());
    }
}

} // verus!
