//! Partition session tokens: a vector token bound to the partition key
//! range it describes, written `<pkrange_id>:<vector_token>`.
use vstd::prelude::*;

use crate::error::{Error, ErrorView};
use crate::ids::PartitionKeyRangeId;
use crate::text::{chars_of, find_char, index_of, lemma_index_of_at};
use crate::vector::{
    lemma_format_parse, parse_vector_spec, token_text, TokenView, VectorSessionToken,
};

verus! {

broadcast use vstd::string::group_string_axioms;

/// The mathematical value of a [`PartitionSessionToken`].
pub struct PartitionTokenView {
    pub pkrange_id: Seq<char>,
    pub token: TokenView,
}

/// A partition-local session token: a partition key range id with the
/// vector session token of that partition.
#[derive(Debug, Clone, PartialEq)]
pub struct PartitionSessionToken {
    /// The partition key range ID this token applies to.
    pub pkrange_id: PartitionKeyRangeId,
    /// The vector session token of that partition.
    pub vector_token: VectorSessionToken,
}

impl View for PartitionSessionToken {
    type V = PartitionTokenView;

    open spec fn view(&self) -> PartitionTokenView {
        PartitionTokenView { pkrange_id: self.pkrange_id.0@, token: self.vector_token@ }
    }
}

/// What the text `s` parses to: the id is what precedes the first ':', the
/// vector token what follows it.
pub open spec fn parse_partition_spec(s: Seq<char>) -> Result<PartitionTokenView, ErrorView> {
    if s.len() == 0 {
        Err(ErrorView::EmptyInput)
    } else {
        let c = index_of(s, ':');
        if c <= 0 || c + 1 == s.len() {
            Err(ErrorView::MissingComponents)
        } else {
            match parse_vector_spec(s.subrange(c + 1, s.len() as int)) {
                Ok(t) => Ok(PartitionTokenView { pkrange_id: s.subrange(0, c), token: t }),
                Err(e) => Err(e),
            }
        }
    }
}

/// The text form of a partition token.
pub open spec fn partition_text(p: PartitionTokenView) -> Seq<char> {
    p.pkrange_id + seq![':'] + token_text(p.token)
}

/// A partition parse result, as views.
pub open spec fn partition_parsed_view(r: Result<PartitionSessionToken, Error>) -> Result<
    PartitionTokenView,
    ErrorView,
> {
    match r {
        Ok(t) => Ok(t@),
        Err(e) => Err(e@),
    }
}

/// Parsing the text of a partition token gives it back, when its id is
/// non-empty and holds no ':' and its vector token is well formed.
pub proof fn lemma_partition_round_trip(p: PartitionTokenView)
    requires
        p.pkrange_id.len() > 0,
        forall|i: int| 0 <= i < p.pkrange_id.len() ==> p.pkrange_id[i] != ':',
        p.token.wf(),
    ensures
        parse_partition_spec(partition_text(p)) == Ok::<PartitionTokenView, ErrorView>(p),
{
    let s = partition_text(p);
    let n = p.pkrange_id.len() as int;
    let t = token_text(p.token);
    assert forall|j: int| 0 <= j < n implies s[j] != ':' by {
        assert(s[j] == p.pkrange_id[j]);
    }
    lemma_index_of_at(s, ':', n);
    lemma_format_parse(p.token);
    assert(parse_vector_spec(t) is Ok);
    assert(t.len() > 0);
    assert(s.subrange(0, n) =~= p.pkrange_id);
    assert(s.subrange(n + 1, s.len() as int) =~= t);
}

impl PartitionSessionToken {
    pub open spec fn wf(&self) -> bool {
        self.vector_token.wf()
    }

    /// Parses `<pkrange_id>:<vector_token>`.
    ///
    /// Fails with `EmptyInput` on an empty text, with `MissingComponents`
    /// when there is no ':' or either side of it is empty, and with the
    /// vector token's error when that part does not parse.
    pub fn from_str(s: &str) -> (r: Result<PartitionSessionToken, Error>)
        ensures
            partition_parsed_view(r) == parse_partition_spec(s@),
            r is Ok ==> r->Ok_0.wf(),
    {
        let cs = chars_of(s);
        let n = cs.len();
        if n == 0 {
            return Err(Error::EmptyInput);
        }
        let c = find_char(&cs, 0, n, ':');
        assert(cs@.subrange(0, n as int) =~= s@);
        if c == n || c == 0 || c + 1 == n {
            return Err(Error::MissingComponents);
        }
        let id = String::from_str(s.substring_char(0, c));
        let vector_token = match VectorSessionToken::from_str(s.substring_char(c + 1, n)) {
            Ok(t) => t,
            Err(e) => {
                return Err(e);
            },
        };
        Ok(PartitionSessionToken { pkrange_id: PartitionKeyRangeId(id), vector_token })
    }

    /// Writes the token in its text form.
    pub fn to_string(&self) -> (r: String)
        ensures
            r@ == partition_text(self@),
    {
        let mut out = String::from_str(self.pkrange_id.0.as_str());
        proof {
            reveal_strlit(":");
        }
        assert(":"@ =~= seq![':']);
        out.append(":");
        let t = self.vector_token.to_string();
        out.append(t.as_str());
        out
    }
}

impl std::str::FromStr for PartitionSessionToken {
    type Err = Error;

    fn from_str(s: &str) -> Result<PartitionSessionToken, Error> {
        PartitionSessionToken::from_str(s)
    }
}

} // verus!
