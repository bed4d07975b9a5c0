use vstd::prelude::*;
use vstd::relations::{sorted_by, total_ordering};
use std::sync::Arc;
use rayon::iter::IntoParallelIterator;
use rayon::iter::ParallelIterator;
use crate::util::Tokenizer;
use crate::util::TokensAndOffsets;
use crate::util::tokens_of;
use crate::util::offsets_of;
use crate::util::skip_grams_model;
use crate::util::keys_tokens_nonempty;
use crate::util::lemma_skip_grams_tokens_nonempty;
use crate::util::clone_string_vec;
use crate::util::create_skip_grams;
use crate::util::deletions_all;
use crate::util::deletions_of;
use crate::util::all_longer_than;

verus! {

/// Which candidate spans a search emits for a window that produced matches.
#[derive(Debug, Clone, Copy, PartialEq, Eq, Structural)]
pub enum ResultSelection {
    All,
    Last,
    LastPreferFull,
}

/// Provenance of an index entry. The declaration order is the presentation
/// order: a lower rank is preferred when results are shown.
#[derive(Debug, Clone, Copy, PartialEq, Eq, Hash, PartialOrd, Ord, Structural)]
pub enum MatchType {
    Full,
    Abbreviated,
    SkipGram,
    NoMatch,
}

impl MatchType {
    /// Numeric rank backing the order `Full < Abbreviated < SkipGram < None`.
    pub open spec fn rank(self) -> int {
        match self {
            MatchType::Full => 0,
            MatchType::Abbreviated => 1,
            MatchType::SkipGram => 2,
            MatchType::NoMatch => 3,
        }
    }

    pub fn get_value(&self) -> (r: i32)
        ensures
            r as int == self.rank(),
    {
        match self {
            MatchType::Full => 0,
            MatchType::Abbreviated => 1,
            MatchType::SkipGram => 2,
            MatchType::NoMatch => 3,
        }
    }
}

/// The presentation name of a match type.
pub open spec fn match_type_label(t: MatchType) -> Seq<char> {
    match t {
        MatchType::Full => "Full"@,
        MatchType::Abbreviated => "Abbreviated"@,
        MatchType::SkipGram => "SkipGram"@,
        MatchType::NoMatch => "None"@,
    }
}

impl MatchType {
    /// The name under which this match type is reported.
    pub fn display_name(&self) -> (r: String)
        ensures
            r@ == match_type_label(*self),
    {
        match self {
            MatchType::Full => String::from_str("Full"),
            MatchType::Abbreviated => String::from_str("Abbreviated"),
            MatchType::SkipGram => String::from_str("SkipGram"),
            MatchType::NoMatch => String::from_str("None"),
        }
    }
}

/// Two match types with the same rank are the same match type.
proof fn lemma_rank_injective(a: MatchType, b: MatchType)
    ensures
        a.rank() == b.rank() ==> a == b,
{
}

/// One record stored in the index: provenance, the original search term and
/// its label. The two strings are shared, via `Arc`, across every variant
/// derived from one source row.
#[derive(Debug, PartialEq, Eq, PartialOrd, Ord, Hash)]
pub struct Match {
    pub match_type: MatchType,
    pub match_string: Arc<String>,
    pub match_label: Arc<String>,
}

/// The mathematical value of a `Match`.
pub struct MatchV {
    pub match_type: MatchType,
    pub match_string: Seq<char>,
    pub match_label: Seq<char>,
}

impl View for Match {
    type V = MatchV;

    open spec fn view(&self) -> MatchV {
        MatchV {
            match_type: self.match_type,
            match_string: self.match_string@,
            match_label: self.match_label@,
        }
    }
}

impl DeepView for Match {
    type V = MatchV;

    open spec fn deep_view(&self) -> MatchV {
        self.view()
    }
}

/// Relies on `Arc::clone`: the clone shares the same allocation, so it
/// carries the same string value.
#[verifier::external_body]
fn arc_clone(a: &Arc<String>) -> (r: Arc<String>)
    ensures
        r == *a,
{
    Arc::clone(a)
}

impl Clone for Match {
    fn clone(&self) -> (r: Match)
        ensures
            r@ == self@,
    {
        Match {
            match_type: self.match_type,
            match_string: arc_clone(&self.match_string),
            match_label: arc_clone(&self.match_label),
        }
    }
}

/// Lexicographic order on character sequences, by code point; agrees with
/// the byte order on UTF-8 encoded strings.
pub open spec fn lex_le(a: Seq<char>, b: Seq<char>) -> bool
    decreases a.len(),
{
    if a.len() == 0 {
        true
    } else if b.len() == 0 {
        false
    } else if a[0] != b[0] {
        (a[0] as u32) < (b[0] as u32)
    } else {
        lex_le(a.skip(1), b.skip(1))
    }
}

proof fn lemma_lex_le_refl(a: Seq<char>)
    ensures
        lex_le(a, a),
    decreases a.len(),
{
    if a.len() > 0 {
        lemma_lex_le_refl(a.skip(1));
    }
}

proof fn lemma_lex_le_total(a: Seq<char>, b: Seq<char>)
    ensures
        lex_le(a, b) || lex_le(b, a),
    decreases a.len(),
{
    if a.len() > 0 && b.len() > 0 {
        if a[0] == b[0] {
            lemma_lex_le_total(a.skip(1), b.skip(1));
        } else {
            assert((a[0] as u32) != (b[0] as u32)) by {
                vstd::utf8::char_u32_cast(a[0], a[0] as u32);
                vstd::utf8::char_u32_cast(b[0], b[0] as u32);
            }
        }
    }
}

proof fn lemma_lex_le_antisym(a: Seq<char>, b: Seq<char>)
    requires
        lex_le(a, b),
        lex_le(b, a),
    ensures
        a == b,
    decreases a.len(),
{
    if a.len() == 0 {
        assert(b.len() == 0);
        assert(a =~= b);
    } else {
        assert(b.len() > 0);
        assert(a[0] == b[0]);
        lemma_lex_le_antisym(a.skip(1), b.skip(1));
        assert(a =~= seq![a[0]] + a.skip(1));
        assert(b =~= seq![b[0]] + b.skip(1));
    }
}

proof fn lemma_lex_le_trans(a: Seq<char>, b: Seq<char>, c: Seq<char>)
    requires
        lex_le(a, b),
        lex_le(b, c),
    ensures
        lex_le(a, c),
    decreases a.len(),
{
    if a.len() > 0 && b.len() > 0 && c.len() > 0 {
        if a[0] == b[0] && b[0] == c[0] {
            lemma_lex_le_trans(a.skip(1), b.skip(1), c.skip(1));
        }
    }
}

/// The total order in which matches are presented: by match type rank, then
/// by search term, then by label.
pub open spec fn match_le(a: MatchV, b: MatchV) -> bool {
    if a.match_type.rank() < b.match_type.rank() {
        true
    } else if b.match_type.rank() < a.match_type.rank() {
        false
    } else if a.match_string != b.match_string {
        lex_le(a.match_string, b.match_string)
    } else {
        lex_le(a.match_label, b.match_label)
    }
}

/// `match_le` as a first-class order, for use with `sort_by`.
pub open spec fn match_order() -> spec_fn(MatchV, MatchV) -> bool {
    |a: MatchV, b: MatchV| match_le(a, b)
}

pub proof fn lemma_match_order_total()
    ensures
        total_ordering(match_order()),
{
    let leq = match_order();
    assert forall|a: MatchV| #[trigger] leq(a, a) by {
        lemma_lex_le_refl(a.match_label);
    }
    assert forall|a: MatchV, b: MatchV| #[trigger] leq(a, b) && #[trigger] leq(b, a) implies a == b by {
        lemma_rank_injective(a.match_type, b.match_type);
        if a.match_type == b.match_type {
            if a.match_string != b.match_string {
                lemma_lex_le_antisym(a.match_string, b.match_string);
            } else {
                lemma_lex_le_antisym(a.match_label, b.match_label);
            }
        }
    }
    assert forall|a: MatchV, b: MatchV, c: MatchV| #[trigger] leq(a, b) && #[trigger] leq(b, c) implies leq(a, c) by {
        if a.match_type.rank() == b.match_type.rank() && b.match_type.rank() == c.match_type.rank() {
            if a.match_string == b.match_string && b.match_string == c.match_string {
                lemma_lex_le_trans(a.match_label, b.match_label, c.match_label);
            } else if a.match_string != b.match_string && b.match_string != c.match_string {
                lemma_lex_le_trans(a.match_string, b.match_string, c.match_string);
                if a.match_string == c.match_string {
                    lemma_lex_le_antisym(a.match_string, b.match_string);
                }
            }
        }
    }
    assert forall|a: MatchV, b: MatchV| true implies #[trigger] leq(a, b) || #[trigger] leq(b, a) by {
        if a.match_type.rank() == b.match_type.rank() {
            if a.match_string != b.match_string {
                lemma_lex_le_total(a.match_string, b.match_string);
            } else {
                lemma_lex_le_total(a.match_label, b.match_label);
            }
        }
    }
}

/// The canonical presentation order of a list of matches.
pub open spec fn sorted_of(s: Seq<MatchV>) -> Seq<MatchV> {
    s.sort_by(match_order())
}

fn string_le(a: &String, b: &String) -> (r: bool)
    ensures
        r == lex_le(a@, b@),
{
    let la = a.as_str().unicode_len();
    let lb = b.as_str().unicode_len();
    let mut i: usize = 0;
    proof {
        assert(a@.skip(0) =~= a@);
        assert(b@.skip(0) =~= b@);
    }
    loop
        invariant
            la == a@.len(),
            lb == b@.len(),
            i <= la,
            i <= lb,
            forall|j: int| 0 <= j < i ==> a@[j] == b@[j],
            lex_le(a@, b@) == lex_le(a@.skip(i as int), b@.skip(i as int)),
        decreases la - i,
    {
        if i == la {
            return true;
        }
        if i == lb {
            assert(b@.skip(i as int).len() == 0);
            assert(a@.skip(i as int).len() > 0);
            return false;
        }
        let ca = a.as_str().get_char(i);
        let cb = b.as_str().get_char(i);
        if ca != cb {
            assert(a@.skip(i as int)[0] == a@[i as int]);
            assert(b@.skip(i as int)[0] == b@[i as int]);
            return (ca as u32) < (cb as u32);
        }
        proof {
            let ai = a@.skip(i as int);
            let bi = b@.skip(i as int);
            assert(ai[0] == bi[0]);
            assert(ai.skip(1) =~= a@.skip(i + 1));
            assert(bi.skip(1) =~= b@.skip(i + 1));
        }
        i = i + 1;
    }
}

pub(crate) fn string_eq(a: &String, b: &String) -> (r: bool)
    ensures
        r == (a@ == b@),
{
    a.eq(b)
}

fn match_le_exec(a: &Match, b: &Match) -> (r: bool)
    ensures
        r == match_le(a@, b@),
{
    let ra = a.match_type.get_value();
    let rb = b.match_type.get_value();
    if ra < rb {
        true
    } else if rb < ra {
        false
    } else if !string_eq(&a.match_string, &b.match_string) {
        string_le(&a.match_string, &b.match_string)
    } else {
        string_le(&a.match_label, &b.match_label)
    }
}

/// Inserting `x` at a position bounded by smaller elements below and larger
/// ones above keeps a sorted sequence sorted, and adds `x` to its multiset.
proof fn lemma_sorted_insert(s: Seq<MatchV>, j: int, x: MatchV)
    requires
        sorted_by(s, match_order()),
        0 <= j <= s.len(),
        forall|k: int| 0 <= k < j ==> match_le(#[trigger] s[k], x),
        j < s.len() ==> match_le(x, s[j]),
    ensures
        sorted_by(s.insert(j, x), match_order()),
        s.insert(j, x).to_multiset() == s.to_multiset().insert(x),
{
    lemma_match_order_total();
    let leq = match_order();
    s.insert_ensures(j, x);
    let t = s.insert(j, x);
    assert forall|p: int, q: int| 0 <= p < q < t.len() implies #[trigger] leq(t[p], t[q]) by {
        if q < j {
            assert(leq(s[p], s[q]));
        } else if p > j {
            assert(leq(s[p - 1], s[q - 1]));
        } else if p < j && q == j {
            assert(leq(s[p], x));
        } else if p < j && q > j {
            assert(leq(s[p], s[q - 1]));
        } else if p == j && q > j {
            assert(leq(x, s[j]));
            if q - 1 > j {
                assert(leq(s[j], s[q - 1]));
            }
        }
    }
    let s1 = s.subrange(0, j);
    let s2 = s.subrange(j, s.len() as int);
    vstd::seq_lib::lemma_multiset_commutative(s1.push(x), s2);
    vstd::seq_lib::lemma_multiset_commutative(s1, s2);
    s1.to_multiset_ensures();
    assert(s =~= s1 + s2);
    assert(t.to_multiset() =~= s.to_multiset().insert(x));
}

/// Sort matches into the canonical presentation order.
fn sort_matches(v: &Vec<Match>) -> (r: Vec<Match>)
    ensures
        r.deep_view() == sorted_of(v.deep_view()),
{
    let mut out: Vec<Match> = Vec::new();
    let ghost leq = match_order();
    proof {
        lemma_match_order_total();
        assert(v.deep_view().subrange(0, 0) =~= out.deep_view());
    }
    let n = v.len();
    for idx in 0..n
        invariant
            n == v@.len(),
            v.deep_view().len() == n,
            leq == match_order(),
            sorted_by(out.deep_view(), leq),
            out.deep_view().to_multiset() == v.deep_view().subrange(0, idx as int).to_multiset(),
    {
        let x = v[idx].clone();
        let mut j: usize = 0;
        while j < out.len() && match_le_exec(&out[j], &x)
            invariant
                leq == match_order(),
                j <= out@.len(),
                forall|k: int| 0 <= k < j ==> match_le(#[trigger] out.deep_view()[k], x@),
            decreases out@.len() - j,
        {
            assert(out.deep_view()[j as int] == out@[j as int].deep_view());
            j = j + 1;
        }
        let ghost old_deep = out.deep_view();
        proof {
            lemma_match_order_total();
            if j < out@.len() {
                assert(out.deep_view()[j as int] == out@[j as int].deep_view());
                assert(!match_le(old_deep[j as int], x@));
                assert(leq(x@, old_deep[j as int]) || leq(old_deep[j as int], x@));
                assert(match_le(x@, old_deep[j as int]));
            }
            lemma_sorted_insert(old_deep, j as int, x@);
        }
        out.insert(j, x);
        proof {
            old_deep.insert_ensures(j as int, x@);
            assert(out.deep_view() =~= old_deep.insert(j as int, x@));
            let prefix = v.deep_view().subrange(0, idx as int);
            prefix.to_multiset_ensures();
            assert(x@ == v.deep_view()[idx as int]);
            assert(prefix.push(x@) =~= v.deep_view().subrange(0, idx + 1));
        }
    }
    proof {
        assert(v.deep_view().subrange(0, n as int) =~= v.deep_view());
        v.deep_view().lemma_sort_by_ensures(leq);
        vstd::seq_lib::lemma_sorted_unique(out.deep_view(), v.deep_view().sort_by(leq), leq);
    }
    out
}

fn match_eq_exec(a: &Match, b: &Match) -> (r: bool)
    ensures
        r == (a@ == b@),
{
    let r = a.match_type == b.match_type && string_eq(&a.match_string, &b.match_string)
        && string_eq(&a.match_label, &b.match_label);
    r
}

fn string_vec_eq(a: &Vec<String>, b: &Vec<String>) -> (r: bool)
    ensures
        r == (a.deep_view() == b.deep_view()),
{
    if a.len() != b.len() {
        proof {
            assert(a.deep_view().len() != b.deep_view().len());
        }
        return false;
    }
    let n = a.len();
    for i in 0..n
        invariant
            n == a@.len(),
            n == b@.len(),
            forall|k: int| 0 <= k < i ==> a.deep_view()[k] == b.deep_view()[k],
    {
        if !a[i].eq(&b[i]) {
            proof {
                assert(a.deep_view()[i as int] != b.deep_view()[i as int]);
            }
            return false;
        }
        proof {
            assert(a.deep_view()[i as int] == a@[i as int]@);
            assert(b.deep_view()[i as int] == b@[i as int]@);
        }
    }
    proof {
        assert(a.deep_view() =~= b.deep_view());
    }
    true
}

fn contains_match(list: &Vec<Match>, m: &Match) -> (r: bool)
    ensures
        r == list.deep_view().contains(m@),
{
    let n = list.len();
    for i in 0..n
        invariant
            n == list@.len(),
            forall|k: int| 0 <= k < i ==> list.deep_view()[k] != m@,
    {
        if match_eq_exec(&list[i], m) {
            proof {
                assert(list.deep_view()[i as int] == m@);
            }
            return true;
        }
        proof {
            assert(list.deep_view()[i as int] == list@[i as int]@);
        }
    }
    proof {
        if list.deep_view().contains(m@) {
            let k = choose|k: int| 0 <= k < list.deep_view().len() && list.deep_view()[k] == m@;
            assert(list.deep_view()[k] != m@);
        }
    }
    false
}

/// The mapping a key/match-list association sequence denotes: a later entry
/// for a key overrides an earlier one (the index never has two).
pub open spec fn assoc_map(s: Seq<(Seq<Seq<char>>, Seq<MatchV>)>) -> Map<
    Seq<Seq<char>>,
    Seq<MatchV>,
>
    decreases s.len(),
{
    if s.len() == 0 {
        Map::empty()
    } else {
        assoc_map(s.drop_last()).insert(s.last().0, s.last().1)
    }
}

/// Keys of an association sequence are pairwise distinct.
pub open spec fn distinct_keys(s: Seq<(Seq<Seq<char>>, Seq<MatchV>)>) -> bool {
    forall|i: int, j: int| 0 <= i < j < s.len() ==> (#[trigger] s[i]).0 != (#[trigger] s[j]).0
}

proof fn lemma_assoc_map_contains(s: Seq<(Seq<Seq<char>>, Seq<MatchV>)>, k: Seq<Seq<char>>)
    ensures
        assoc_map(s).contains_key(k) <==> exists|i: int| 0 <= i < s.len() && (#[trigger] s[i]).0 == k,
    decreases s.len(),
{
    if s.len() > 0 {
        lemma_assoc_map_contains(s.drop_last(), k);
        if s.last().0 == k {
            assert(s[s.len() - 1].0 == k);
        } else if assoc_map(s).contains_key(k) {
            let i = choose|i: int| 0 <= i < s.drop_last().len() && (#[trigger] s.drop_last()[i]).0 == k;
            assert(s[i].0 == k);
        } else {
            assert forall|i: int| 0 <= i < s.len() implies (#[trigger] s[i]).0 != k by {
                if i < s.len() - 1 {
                    assert(s.drop_last()[i].0 != k);
                }
            }
        }
    }
}

proof fn lemma_assoc_map_index(s: Seq<(Seq<Seq<char>>, Seq<MatchV>)>, i: int)
    requires
        distinct_keys(s),
        0 <= i < s.len(),
    ensures
        assoc_map(s).contains_key(s[i].0),
        assoc_map(s)[s[i].0] == s[i].1,
    decreases s.len(),
{
    if i < s.len() - 1 {
        assert(distinct_keys(s.drop_last())) by {
            assert forall|p: int, q: int|
                0 <= p < q < s.drop_last().len() implies (#[trigger] s.drop_last()[p]).0 != (
            #[trigger] s.drop_last()[q]).0 by {
                assert(s[p].0 != s[q].0);
            }
        }
        assert(s.drop_last()[i] == s[i]);
        lemma_assoc_map_index(s.drop_last(), i);
        assert(s.last().0 != s[i].0);
    }
}

proof fn lemma_assoc_map_update(
    s: Seq<(Seq<Seq<char>>, Seq<MatchV>)>,
    i: int,
    v: Seq<MatchV>,
)
    requires
        distinct_keys(s),
        0 <= i < s.len(),
    ensures
        assoc_map(s.update(i, (s[i].0, v))) =~= assoc_map(s).insert(s[i].0, v),
    decreases s.len(),
{
    let t = s.update(i, (s[i].0, v));
    if i == s.len() - 1 {
        assert(t.drop_last() =~= s.drop_last());
        assert(t.last() == (s[i].0, v));
    } else {
        assert(distinct_keys(s.drop_last())) by {
            assert forall|p: int, q: int|
                0 <= p < q < s.drop_last().len() implies (#[trigger] s.drop_last()[p]).0 != (
            #[trigger] s.drop_last()[q]).0 by {
                assert(s[p].0 != s[q].0);
            }
        }
        lemma_assoc_map_update(s.drop_last(), i, v);
        assert(t.drop_last() =~= s.drop_last().update(i, (s[i].0, v)));
        assert(s.drop_last()[i] == s[i]);
        assert(t.last() == s.last());
        assert(s.last().0 != s[i].0);
    }
}

/// How one insertion changes the index mapping: a new key gets a singleton
/// list, a known key gets the match appended unless it is already present.
pub open spec fn insert_match(
    m: Map<Seq<Seq<char>>, Seq<MatchV>>,
    k: Seq<Seq<char>>,
    v: MatchV,
) -> Map<Seq<Seq<char>>, Seq<MatchV>> {
    if m.contains_key(k) {
        if m[k].contains(v) {
            m
        } else {
            m.insert(k, m[k].push(v))
        }
    } else {
        m.insert(k, seq![v])
    }
}

/// The multimap from token sequences to match records, with the length of
/// the longest key ever inserted. A flat map serves here: the search probes
/// every window prefix explicitly, so no trie traversal state could be
/// reused anyway.
pub struct HashMapSearchTree {
    pub search_map: Vec<(Vec<String>, Vec<Match>)>,
    tokenizer: Tokenizer,
    tree_depth: usize,
}

/// An entry ready for insertion: tokenized key, shared search term, shared label.
pub type EntryType = (Vec<String>, Arc<String>, Arc<String>);

impl HashMapSearchTree {
    /// The association sequence the index stores, as mathematical values.
    pub closed spec fn entries_view(&self) -> Seq<(Seq<Seq<char>>, Seq<MatchV>)> {
        self.search_map.deep_view()
    }

    /// The mapping from keys to match lists.
    pub open spec fn map_view(&self) -> Map<Seq<Seq<char>>, Seq<MatchV>> {
        assoc_map(self.entries_view())
    }

    /// The length of the longest key inserted so far.
    pub closed spec fn depth_view(&self) -> nat {
        self.tree_depth as nat
    }

    /// Structural invariant: keys are unique and bounded by the depth, match
    /// lists are non-empty sets (no duplicates), and every token of a stored
    /// key is non-empty.
    pub open spec fn wf(&self) -> bool {
        let es = self.entries_view();
        &&& distinct_keys(es)
        &&& forall|i: int| 0 <= i < es.len() ==> (#[trigger] es[i]).1.no_duplicates()
        &&& forall|i: int| 0 <= i < es.len() ==> (#[trigger] es[i]).1.len() >= 1
        &&& forall|i: int| 0 <= i < es.len() ==> (#[trigger] es[i]).0.len() <= self.depth_view()
        &&& forall|i: int, j: int|
            0 <= i < es.len() && 0 <= j < es[i].0.len() ==> (#[trigger] es[i].0[j]).len() > 0
    }

    fn find_key(&self, key: &Vec<String>) -> (r: Option<usize>)
        ensures
            match r {
                Some(i) => i < self.entries_view().len() && self.entries_view()[i as int].0
                    == key.deep_view(),
                None => forall|i: int|
                    0 <= i < self.entries_view().len() ==> (#[trigger] self.entries_view()[i]).0
                        != key.deep_view(),
            },
    {
        let n = self.search_map.len();
        for i in 0..n
            invariant
                n == self.search_map@.len(),
                forall|k: int|
                    0 <= k < i ==> (#[trigger] self.entries_view()[k]).0 != key.deep_view(),
        {
            proof {
                assert(self.entries_view()[i as int] == self.search_map@[i as int].deep_view());
            }
            if string_vec_eq(&self.search_map[i].0, key) {
                return Some(i);
            }
        }
        None
    }

    /// Insert one match record at the given token-sequence key. Extends the
    /// recorded depth if the key is longer than any before; creates the match
    /// list if the key is new; adding an already-present record is a no-op on
    /// the mapping.
    pub fn insert(
        &mut self,
        segments: Vec<String>,
        match_string: Arc<String>,
        match_label: Arc<String>,
        match_type: MatchType,
    )
        requires
            old(self).wf(),
            forall|j: int| 0 <= j < segments@.len() ==> (#[trigger] segments@[j])@.len() > 0,
        ensures
            final(self).wf(),
            final(self).map_view() == insert_match(
                old(self).map_view(),
                segments.deep_view(),
                MatchV {
                    match_type: match_type,
                    match_string: match_string@,
                    match_label: match_label@,
                },
            ),
            final(self).depth_view() == if segments@.len() > old(self).depth_view() {
                segments@.len() as nat
            } else {
                old(self).depth_view()
            },
    {
        if segments.len() > self.tree_depth {
            self.tree_depth = segments.len();
        }
        let ghost pre = *self;
        let ghost k = segments.deep_view();
        let m = Match { match_type, match_string, match_label };
        let ghost mv = m@;
        match self.find_key(&segments) {
            Some(i) => {
                proof {
                    lemma_assoc_map_index(pre.entries_view(), i as int);
                }
                let present = contains_match(&self.search_map[i].1, &m);
                if !present {
                    let ghost old_entries = self.entries_view();
                    let ghost old_list = self.entries_view()[i as int].1;
                    self.search_map[i].1.push(m);
                    proof {
                        let new_entries = self.entries_view();
                        assert(new_entries =~~= old_entries.update(
                            i as int,
                            (k, old_list.push(mv)),
                        ));
                        lemma_assoc_map_update(old_entries, i as int, old_list.push(mv));
                        assert(old_list.push(mv).no_duplicates()) by {
                            assert forall|p: int, q: int|
                                0 <= p < q < old_list.push(mv).len() implies old_list.push(mv)[p]
                                != old_list.push(mv)[q] by {
                                if q == old_list.len() {
                                    assert(old_list[p] == old_list.push(mv)[p]);
                                    assert(!old_list.contains(mv));
                                }
                            }
                        }
                        assert(final(self).wf()) by {
                            assert forall|p: int, q: int|
                                0 <= p < q < new_entries.len() implies (#[trigger] new_entries[p]).0
                                != (#[trigger] new_entries[q]).0 by {
                                assert(old_entries[p].0 == new_entries[p].0);
                                assert(old_entries[q].0 == new_entries[q].0);
                            }
                        }
                    }
                } else {
                    proof {
                        assert(final(self).map_view() == insert_match(pre.map_view(), k, mv));
                    }
                }
            },
            None => {
                proof {
                    lemma_assoc_map_contains(pre.entries_view(), k);
                }
                let ghost old_entries = self.entries_view();
                let mut list: Vec<Match> = Vec::new();
                list.push(m);
                self.search_map.push((segments, list));
                proof {
                    let new_entries = self.entries_view();
                    assert(new_entries =~~= old_entries.push((k, seq![mv])));
                    assert(new_entries.drop_last() =~~= old_entries);
                    assert(final(self).map_view() =~= pre.map_view().insert(k, seq![mv]));
                    assert(final(self).wf()) by {
                        assert forall|p: int, q: int|
                            0 <= p < q < new_entries.len() implies (#[trigger] new_entries[p]).0
                            != (#[trigger] new_entries[q]).0 by {
                            if q == new_entries.len() - 1 {
                                assert(old_entries[p].0 != k);
                            }
                        }
                    }
                }
            },
        }
        proof {
            assert(final(self).map_view() == insert_match(pre.map_view(), k, mv));
            assert(pre.map_view() == old(self).map_view());
        }
    }

    /// The whole observable state: mapping and depth together.
    pub open spec fn state_view(&self) -> IndexState {
        (self.map_view(), self.depth_view())
    }

    pub(crate) fn tokenize(&self, input: &str) -> (r: TokensAndOffsets)
        ensures
            r.0.deep_view() == tokens_of(input@),
            r.1@ == offsets_of(input@),
            r.0@.len() == r.1@.len(),
            forall|i: int| 0 <= i < r.0@.len() ==> (#[trigger] r.0@[i])@.len() > 0,
            forall|i: int|
                0 <= i < r.1@.len() ==> (#[trigger] r.1@[i]).0 <= r.1@[i].1 <= input@.len(),
            forall|i: int|
                0 <= i < r.1@.len() - 1 ==> (#[trigger] r.1@[i]).0 <= r.1@[i + 1].0 && r.1@[i].1
                    <= r.1@[i + 1].1,
    {
        self.tokenizer.tokenize(input)
    }

    pub(crate) fn tokenize_batch(&self, input: &[&str]) -> (r: Vec<TokensAndOffsets>)
        ensures
            r@.len() == input@.len(),
            forall|i: int|
                0 <= i < input@.len() ==> (#[trigger] r@[i]).0.deep_view() == tokens_of(input@[i]@)
                    && r@[i].1@ == offsets_of(input@[i]@),
            forall|i: int, j: int|
                0 <= i < r@.len() && 0 <= j < (#[trigger] r@[i]).0@.len() ==> (
                #[trigger] r@[i].0@[j])@.len() > 0,
    {
        self.tokenizer.encode_batch(input)
    }

    /// Insert every entry at its own tokenized key, as a `Full` match.
    pub(crate) fn load_entries(&mut self, entries: &Vec<EntryType>)
        requires
            old(self).wf(),
            entry_tokens_nonempty(entries.deep_view()),
        ensures
            final(self).wf(),
            final(self).state_view() == full_phase(old(self).state_view(), entries.deep_view()),
    {
        let ghost st0 = self.state_view();
        let ghost es = entries.deep_view();
        proof {
            assert(es.subrange(0, 0) =~= Seq::<EntryV>::empty());
        }
        let n = entries.len();
        for idx in 0..n
            invariant
                n == entries@.len(),
                es == entries.deep_view(),
                es.len() == n,
                entry_tokens_nonempty(es),
                self.wf(),
                self.state_view() == full_phase(st0, es.subrange(0, idx as int)),
        {
            proof {
                assert(entries.deep_view()[idx as int] == entries@[idx as int].deep_view());
            }
            let segments = clone_string_vec(&entries[idx].0);
            proof {
                assert forall|j: int| 0 <= j < segments@.len() implies (
                #[trigger] segments@[j])@.len() > 0 by {
                    assert(segments.deep_view()[j] == segments@[j]@);
                    assert(es[idx as int].0[j].len() > 0);
                }
            }
            let ghost stpre = self.state_view();
            self.insert(
                segments,
                arc_clone(&entries[idx].1),
                arc_clone(&entries[idx].2),
                MatchType::Full,
            );
            proof {
                assert(self.state_view() == insert_one(stpre, es[idx as int].0, full_match(es[idx as int])));
                assert(es.subrange(0, idx + 1).drop_last() =~= es.subrange(0, idx as int));
                assert(es.subrange(0, idx + 1).last() == es[idx as int]);
            }
        }
        proof {
            assert(es.subrange(0, n as int) =~= es);
        }
    }

    /// Derive and insert the skip-gram variants of every entry that has more
    /// tokens than the configured minimum.
    pub(crate) fn generate_skip_grams(
        &mut self,
        lines: &Vec<EntryType>,
        min_length: i32,
        max_skips: i32,
    )
        requires
            old(self).wf(),
            entry_tokens_nonempty(lines.deep_view()),
        ensures
            final(self).wf(),
            final(self).state_view() == skip_gram_phase(
                old(self).state_view(),
                lines.deep_view(),
                min_length as int,
                max_skips as int,
            ),
    {
        let ghost st0 = self.state_view();
        let ghost es = lines.deep_view();
        proof {
            assert(es.subrange(0, 0) =~= Seq::<EntryV>::empty());
        }
        let n = lines.len();
        for idx in 0..n
            invariant
                n == lines@.len(),
                es == lines.deep_view(),
                es.len() == n,
                entry_tokens_nonempty(es),
                self.wf(),
                self.state_view() == skip_gram_phase(
                    st0,
                    es.subrange(0, idx as int),
                    min_length as int,
                    max_skips as int,
                ),
        {
            proof {
                assert(lines.deep_view()[idx as int] == lines@[idx as int].deep_view());
            }
            if min_length >= 0 && lines[idx].0.len() > min_length as usize {
                let mut seed: Vec<Vec<String>> = Vec::new();
                seed.push(clone_string_vec(&lines[idx].0));
                proof {
                    assert(seed.deep_view() =~= seq![es[idx as int].0]);
                }
                let deletes = create_skip_grams(&seed, max_skips, min_length);
                let ghost keys = deletes.deep_view();
                proof {
                    assert(keys_tokens_nonempty(seq![es[idx as int].0])) by {
                        let s = seq![es[idx as int].0];
                        assert forall|i: int, j: int|
                            0 <= i < s.len() && 0 <= j < s[i].len() implies (
                        #[trigger] s[i][j]).len() > 0 by {
                            assert(s[i] == es[idx as int].0);
                            assert(es[idx as int].0[j].len() > 0);
                        }
                    }
                    lemma_skip_grams_tokens_nonempty(
                        seq![es[idx as int].0],
                        max_skips as int,
                        min_length as int,
                    );
                    assert(keys.subrange(0, 0) =~= Seq::<Seq<Seq<char>>>::empty());
                }
                let ghost stpre = self.state_view();
                let ghost mv = skip_gram_match(es[idx as int]);
                let m = deletes.len();
                for t in 0..m
                    invariant
                        m == deletes@.len(),
                        keys == deletes.deep_view(),
                        keys.len() == m,
                        keys_tokens_nonempty(keys),
                        es == lines.deep_view(),
                        idx < es.len(),
                        n == lines@.len(),
                        mv == skip_gram_match(es[idx as int]),
                        self.wf(),
                        self.state_view() == insert_all(stpre, keys.subrange(0, t as int), mv),
                    {
                    proof {
                        assert(deletes.deep_view()[t as int] == deletes@[t as int].deep_view());
                        assert(lines.deep_view()[idx as int] == lines@[idx as int].deep_view());
                    }
                    let segs = clone_string_vec(&deletes[t]);
                    proof {
                        assert forall|j: int| 0 <= j < segs@.len() implies (
                        #[trigger] segs@[j])@.len() > 0 by {
                            assert(segs.deep_view()[j] == segs@[j]@);
                            assert(keys[t as int][j].len() > 0);
                        }
                    }
                    let ghost stin = self.state_view();
                    self.insert(
                        segs,
                        arc_clone(&lines[idx].1),
                        arc_clone(&lines[idx].2),
                        MatchType::SkipGram,
                    );
                    proof {
                        assert(self.state_view() == insert_one(stin, keys[t as int], mv));
                        assert(keys.subrange(0, t + 1).drop_last() =~= keys.subrange(0, t as int));
                        assert(keys.subrange(0, t + 1).last() == keys[t as int]);
                    }
                }
                proof {
                    assert(keys.subrange(0, m as int) =~= keys);
                    assert(es.subrange(0, idx + 1).drop_last() =~= es.subrange(0, idx as int));
                    assert(es.subrange(0, idx + 1).last() == es[idx as int]);
                    assert(self.state_view() == skip_gram_phase(
                        st0,
                        es.subrange(0, idx + 1),
                        min_length as int,
                        max_skips as int,
                    ));
                }
            } else {
                proof {
                    assert(es.subrange(0, idx + 1).drop_last() =~= es.subrange(0, idx as int));
                    assert(es.subrange(0, idx + 1).last() == es[idx as int]);
                    assert(!(min_length as int >= 0 && es[idx as int].0.len() > min_length as int));
                }
            }
        }
        proof {
            assert(es.subrange(0, n as int) =~= es);
        }
    }

    /// Load raw `(search term, label)` rows: tokenize every term with the
    /// shared tokenizer, insert all entries as `Full` matches, then derive
    /// and insert skip-gram and abbreviation variants where enabled.
    pub fn load(
        &mut self,
        entries: Vec<(String, String)>,
        generate_skip_grams: bool,
        skip_gram_min_length: i32,
        skip_gram_max_skips: i32,
        generate_abbrv: bool,
        abbrv_max_index: i32,
        abbrv_min_suffix_length: i32,
    )
        requires
            old(self).wf(),
        ensures
            final(self).wf(),
            final(self).state_view() == load_model(
                old(self).state_view(),
                entries.deep_view(),
                generate_skip_grams,
                skip_gram_min_length as int,
                skip_gram_max_skips as int,
                generate_abbrv,
                abbrv_max_index as int,
                abbrv_min_suffix_length as int,
            ),
    {
        let ghost raw = entries.deep_view();
        let n = entries.len();
        let mut terms: Vec<&str> = Vec::new();
        for k in 0..n
            invariant
                n == entries@.len(),
                terms@.len() == k,
                forall|i: int| 0 <= i < k ==> (#[trigger] terms@[i])@ == entries@[i].0@,
        {
            terms.push(entries[k].0.as_str());
        }
        let segmented = self.tokenize_batch(terms.as_slice());
        let mut ents: Vec<EntryType> = Vec::new();
        for k in 0..n
            invariant
                n == entries@.len(),
                raw == entries.deep_view(),
                segmented@.len() == n,
                terms@.len() == n,
                forall|i: int| 0 <= i < n ==> (#[trigger] terms@[i])@ == entries@[i].0@,
                forall|i: int|
                    0 <= i < n ==> (#[trigger] segmented@[i]).0.deep_view() == tokens_of(
                        terms@[i]@,
                    ),
                forall|i: int, j: int|
                    0 <= i < n && 0 <= j < (#[trigger] segmented@[i]).0@.len() ==> (
                    #[trigger] segmented@[i].0@[j])@.len() > 0,
                ents@.len() == k,
                forall|i: int|
                    0 <= i < k ==> #[trigger] ents.deep_view()[i] == tokenized_entries(raw)[i],
        {
            let segs = clone_string_vec(&segmented[k].0);
            let term = Arc::new(entries[k].0.clone());
            let label = Arc::new(entries[k].1.clone());
            proof {
                assert(entries.deep_view()[k as int] == entries@[k as int].deep_view());
            }
            let ghost before_ents = ents.deep_view();
            ents.push((segs, term, label));
            proof {
                assert(ents.deep_view() =~= before_ents.push(ents@[k as int].deep_view()));
                assert(ents.deep_view()[k as int] == ents@[k as int].deep_view());
                assert(raw[k as int].0 == entries@[k as int].0@);
                assert(raw[k as int].1 == entries@[k as int].1@);
                assert(ents@[k as int].0.deep_view() == tokens_of(raw[k as int].0));
                assert(ents@[k as int].1.deep_view() == raw[k as int].0);
                assert(ents@[k as int].2.deep_view() == raw[k as int].1);
                assert(tokenized_entries(raw)[k as int] == (
                    tokens_of(raw[k as int].0),
                    raw[k as int].0,
                    raw[k as int].1,
                ));
                assert(ents.deep_view()[k as int] == tokenized_entries(raw)[k as int]);
            }
        }
        proof {
            assert(ents.deep_view() =~~= tokenized_entries(raw));
            assert(entry_tokens_nonempty(ents.deep_view())) by {
                let ev = ents.deep_view();
                assert forall|i: int, j: int|
                    0 <= i < ev.len() && 0 <= j < ev[i].0.len() implies (
                #[trigger] ev[i].0[j]).len() > 0 by {
                    assert(ev[i] == ents@[i].deep_view());
                    assert(ents@[i].0.deep_view() == segmented@[i].0.deep_view());
                    assert(segmented@[i].0.deep_view()[j] == segmented@[i].0@[j]@);
                }
            }
        }
        self.load_entries(&ents);
        if generate_skip_grams {
            self.generate_skip_grams(&ents, skip_gram_min_length, skip_gram_max_skips);
        }
        if generate_abbrv {
            self.generate_abbreviations(&ents, abbrv_max_index, abbrv_min_suffix_length);
        }
    }

    /// Derive and insert the abbreviation variants of every entry that has
    /// more than one token: each eligible token is replaced by its first
    /// character, subject to the configured index and suffix-length bounds.
    pub(crate) fn generate_abbreviations(
        &mut self,
        lines: &Vec<EntryType>,
        abbrv_max_index: i32,
        abbrv_min_suffix_length: i32,
    )
        requires
            old(self).wf(),
            entry_tokens_nonempty(lines.deep_view()),
        ensures
            final(self).wf(),
            final(self).state_view() == abbrv_phase(
                old(self).state_view(),
                lines.deep_view(),
                abbrv_max_index as int,
                abbrv_min_suffix_length as int,
            ),
    {
        let ghost st0 = self.state_view();
        let ghost es = lines.deep_view();
        proof {
            assert(es.subrange(0, 0) =~= Seq::<EntryV>::empty());
        }
        let n = lines.len();
        for idx in 0..n
            invariant
                n == lines@.len(),
                es == lines.deep_view(),
                es.len() == n,
                entry_tokens_nonempty(es),
                self.wf(),
                self.state_view() == abbrv_phase(
                    st0,
                    es.subrange(0, idx as int),
                    abbrv_max_index as int,
                    abbrv_min_suffix_length as int,
                ),
        {
            proof {
                assert(lines.deep_view()[idx as int] == lines@[idx as int].deep_view());
            }
            let seg_count = lines[idx].0.len();
            let ghost tok = es[idx as int].0;
            proof {
                assert(tok == lines@[idx as int].0.deep_view());
                assert(tok.len() == seg_count);
            }
            if seg_count > 1 {
                let max_index0 = seg_count - 1;
                let max_index = if abbrv_max_index < 0 {
                    max_index0
                } else {
                    let ami = abbrv_max_index as usize;
                    if ami > max_index0 {
                        max_index0
                    } else {
                        ami
                    }
                };
                proof {
                    assert(max_index as int == abbrv_max(tok.len() as int, abbrv_max_index as int));
                }
                let ghost stpre = self.state_view();
                let ghost mv = abbrv_match(es[idx as int]);
                let upper = max_index + 1;
                for i in 0..upper
                    invariant
                        n == lines@.len(),
                        es == lines.deep_view(),
                        es.len() == n,
                        idx < n,
                        entry_tokens_nonempty(es),
                        tok == es[idx as int].0,
                        tok == lines@[idx as int].0.deep_view(),
                        tok.len() == seg_count,
                        seg_count == lines@[idx as int].0@.len(),
                        1 < seg_count,
                        upper == max_index + 1,
                        max_index < seg_count,
                        mv == abbrv_match(es[idx as int]),
                        self.wf(),
                        self.state_view() == abbrv_steps(
                            stpre,
                            es[idx as int],
                            abbrv_min_suffix_length as int,
                            i as int,
                        ),
                {
                    proof {
                        assert(lines.deep_view()[idx as int] == lines@[idx as int].deep_view());
                    }
                    let mut suffix: usize = 0;
                    let mut j = seg_count;
                    while j > i + 1
                        invariant
                            i < seg_count,
                            i + 1 <= j <= seg_count,
                            tok == lines@[idx as int].0.deep_view(),
                            tok.len() == seg_count,
                            seg_count == lines@[idx as int].0@.len(),
                            idx < lines@.len(),
                            suffix as int == (if sum_from(tok, j as int) > usize::MAX as int {
                                usize::MAX as int
                            } else {
                                sum_from(tok, j as int)
                            }),
                        decreases j,
                    {
                        j = j - 1;
                        proof {
                            assert(lines@[idx as int].0.deep_view()[j as int] == lines@[
                                idx as int].0@[j as int]@);
                            lemma_sum_from_nonneg(tok, j + 1);
                        }
                        let l = lines[idx].0[j].as_str().unicode_len();
                        suffix = suffix.saturating_add(l);
                    }
                    proof {
                        lemma_sum_from_nonneg(tok, i + 1);
                    }
                    let allowed = !(abbrv_min_suffix_length > 0 && suffix < (
                    abbrv_min_suffix_length as usize));
                    proof {
                        assert(allowed == abbrv_allowed(
                            tok,
                            i as int,
                            abbrv_min_suffix_length as int,
                        ));
                    }
                    if allowed {
                        let mut abbrv: Vec<String> = Vec::new();
                        for j2 in 0..i
                            invariant
                                i < seg_count,
                                tok == lines@[idx as int].0.deep_view(),
                                tok.len() == seg_count,
                                seg_count == lines@[idx as int].0@.len(),
                                idx < lines@.len(),
                                abbrv@.len() == j2,
                                forall|k: int| 0 <= k < j2 ==> abbrv.deep_view()[k] == tok[k],
                        {
                            let x = lines[idx].0[j2].clone();
                            proof {
                                assert(lines@[idx as int].0.deep_view()[j2 as int] == lines@[
                                    idx as int].0@[j2 as int]@);
                            }
                            let ghost before = abbrv.deep_view();
                            abbrv.push(x);
                            proof {
                                assert(abbrv.deep_view() =~= before.push(tok[j2 as int]));
                            }
                        }
                        proof {
                            assert(entry_tokens_nonempty(es));
                            assert(es[idx as int].0[i as int].len() > 0);
                            assert(lines@[idx as int].0.deep_view()[i as int] == lines@[
                                idx as int].0@[i as int]@);
                        }
                        let first = String::from_str(
                            lines[idx].0[i].as_str().substring_char(0, 1),
                        );
                        proof {
                            assert(first@ == tok[i as int].subrange(0, 1));
                            assert(first@ =~= seq![tok[i as int][0]]);
                        }
                        let ghost before_first = abbrv.deep_view();
                        abbrv.push(first);
                        proof {
                            assert(abbrv.deep_view() =~= before_first.push(seq![tok[i as int][0]]));
                        }
                        let seg_total = lines[idx].0.len();
                        for j2 in (i + 1)..seg_total
                            invariant
                                i < seg_count,
                                seg_total == seg_count,
                                tok == lines@[idx as int].0.deep_view(),
                                tok.len() == seg_count,
                                seg_count == lines@[idx as int].0@.len(),
                                idx < lines@.len(),
                                abbrv@.len() == j2,
                                forall|k: int| 0 <= k < i ==> abbrv.deep_view()[k] == tok[k],
                                abbrv.deep_view().len() > i && abbrv.deep_view()[i as int] == seq![
                                    tok[i as int][0],
                                ],
                                forall|k: int|
                                    i < k < j2 ==> abbrv.deep_view()[k] == tok[k],
                        {
                            let x = lines[idx].0[j2].clone();
                            proof {
                                assert(lines@[idx as int].0.deep_view()[j2 as int] == lines@[
                                    idx as int].0@[j2 as int]@);
                            }
                            let ghost before = abbrv.deep_view();
                            abbrv.push(x);
                            proof {
                                assert(abbrv.deep_view() =~= before.push(tok[j2 as int]));
                            }
                        }
                        proof {
                            assert(abbrv.deep_view() =~= abbrv_key(tok, i as int));
                            assert forall|jj: int| 0 <= jj < abbrv@.len() implies (
                            #[trigger] abbrv@[jj])@.len() > 0 by {
                                assert(abbrv.deep_view()[jj] == abbrv@[jj]@);
                                assert(abbrv_key(tok, i as int)[jj].len() > 0) by {
                                    if jj != i {
                                        assert(abbrv_key(tok, i as int)[jj] == tok[jj]);
                                        assert(es[idx as int].0[jj].len() > 0);
                                    }
                                }
                            }
                        }
                        let ghost stin = self.state_view();
                        self.insert(
                            abbrv,
                            arc_clone(&lines[idx].1),
                            arc_clone(&lines[idx].2),
                            MatchType::Abbreviated,
                        );
                        proof {
                            assert(self.state_view() == insert_one(
                                stin,
                                abbrv_key(tok, i as int),
                                mv,
                            ));
                        }
                    }
                }
                proof {
                    assert(es.subrange(0, idx + 1).drop_last() =~= es.subrange(0, idx as int));
                    assert(es.subrange(0, idx + 1).last() == es[idx as int]);
                    assert(self.state_view() == abbrv_steps(
                        stpre,
                        es[idx as int],
                        abbrv_min_suffix_length as int,
                        abbrv_max(tok.len() as int, abbrv_max_index as int) + 1,
                    ));
                }
            } else {
                proof {
                    assert(es.subrange(0, idx + 1).drop_last() =~= es.subrange(0, idx as int));
                    assert(es.subrange(0, idx + 1).last() == es[idx as int]);
                }
            }
        }
        proof {
            assert(es.subrange(0, n as int) =~= es);
        }
    }

    /// Probe the index with every prefix of the window, shortest first, and
    /// collect the candidates that hit; `Err` when none did.
    pub fn traverse(&self, window: &[String]) -> (r: Result<Vec<TraversalResult>, String>)
        requires
            self.wf(),
        ensures
            r is Ok ==> cand_lens(self.map_view(), window.deep_view(), 0, window@.len() as int).len() > 0,
            r is Ok ==> (r->Ok_0).deep_view().len() == cand_lens(
                self.map_view(),
                window.deep_view(),
                0,
                window@.len() as int,
            ).len(),
            r is Ok ==> forall|j: int|
                0 <= j < cand_lens(self.map_view(), window.deep_view(), 0, window@.len() as int).len()
                    ==> {
                    let c = cand_lens(self.map_view(), window.deep_view(), 0, window@.len() as int);
                    (#[trigger] (r->Ok_0).deep_view()[j]).search_terms == window.deep_view().subrange(0, c[j])
                        && (r->Ok_0).deep_view()[j].search_results == self.map_view()[window.deep_view().subrange(0, c[j])]
                },
            r is Err ==> cand_lens(self.map_view(), window.deep_view(), 0, window@.len() as int).len()
                == 0 && (r->Err_0)@ == "No matches found"@,
    {
        let ghost wv = window.deep_view();
        let ghost m = self.map_view();
        let mut results: Vec<TraversalResult> = Vec::new();
        let n = window.len();
        for i in 0..n
            invariant
                self.wf(),
                n == window@.len(),
                wv == window.deep_view(),
                m == self.map_view(),
                results.deep_view().len() == cand_lens(m, wv, 0, i as int).len(),
                forall|j: int|
                    0 <= j < cand_lens(m, wv, 0, i as int).len() ==> (
                    #[trigger] results.deep_view()[j]).search_terms == wv.subrange(
                        0,
                        cand_lens(m, wv, 0, i as int)[j],
                    ) && results.deep_view()[j].search_results == m[wv.subrange(
                        0,
                        cand_lens(m, wv, 0, i as int)[j],
                    )],
        {
            let mut prefix: Vec<String> = Vec::new();
            for t in 0..(i + 1)
                invariant
                    i < n,
                    n == window@.len(),
                    wv == window.deep_view(),
                    prefix@.len() == t,
                    forall|k: int| 0 <= k < t ==> prefix.deep_view()[k] == wv[k],
            {
                let x = window[t].clone();
                proof {
                    assert(window.deep_view()[t as int] == window@[t as int]@);
                }
                let ghost before = prefix.deep_view();
                prefix.push(x);
                proof {
                    assert(prefix.deep_view() =~= before.push(wv[t as int]));
                }
            }
            proof {
                assert(prefix.deep_view() =~= wv.subrange(0, i + 1));
            }
            let ghost c_pre = cand_lens(m, wv, 0, i as int);
            let ghost c_cur = cand_lens(m, wv, 0, i + 1);
            match self.find_key(&prefix) {
                Some(idx) => {
                    proof {
                        lemma_assoc_map_index(self.entries_view(), idx as int);
                        assert(m.contains_key(wv.subrange(0, i + 1)));
                        assert(c_cur == c_pre.push(i + 1));
                        assert(self.entries_view()[idx as int] == self.search_map@[
                            idx as int].deep_view());
                        assert(m[wv.subrange(0, i + 1)] == self.search_map@[
                            idx as int].1.deep_view());
                    }
                    let stored = clone_matches(&self.search_map[idx].1);
                    let ghost before = results.deep_view();
                    results.push(TraversalResult { search_terms: prefix, search_results: stored });
                    proof {
                        assert(results.deep_view() =~= before.push(
                            results@[results@.len() - 1].deep_view(),
                        ));
                        assert forall|j: int| 0 <= j < c_cur.len() implies (
                        #[trigger] results.deep_view()[j]).search_terms == wv.subrange(
                            0,
                            c_cur[j],
                        ) && results.deep_view()[j].search_results == m[wv.subrange(
                            0,
                            c_cur[j],
                        )] by {
                            if j < c_pre.len() {
                                assert(c_cur[j] == c_pre[j]);
                                assert(results.deep_view()[j] == before[j]);
                            } else {
                                assert(c_cur[j] == i + 1);
                            }
                        }
                    }
                },
                None => {
                    proof {
                        lemma_assoc_map_contains(self.entries_view(), wv.subrange(0, i + 1));
                        assert(!m.contains_key(wv.subrange(0, i + 1)));
                        assert(c_cur == c_pre);
                    }
                },
            }
        }
        proof {
            assert(wv.subrange(0, n as int) =~= wv);
        }
        if results.is_empty() {
            Err(String::from_str("No matches found"))
        } else {
            Ok(results)
        }
    }

    /// The spans the window at `p` contributes, under the selection policy.
    fn spans_for_window(
        &self,
        toks: &Vec<String>,
        offs: &Vec<(usize, usize)>,
        p: usize,
        w: usize,
        sel: ResultSelection,
    ) -> (r: Vec<(String, Vec<Match>, usize, usize)>)
        requires
            self.wf(),
            w >= 1,
            p + w <= toks@.len(),
            toks@.len() == offs@.len(),
        ensures
            r.deep_view() == window_model(
                self.map_view(),
                toks.deep_view(),
                offs@,
                p as int,
                w as int,
                sel,
            ),
    {
        let ghost m = self.map_view();
        let ghost pt = toks.deep_view();
        let ghost po = offs@;
        let total = toks.len();
        let mut window: Vec<String> = Vec::new();
        for t in 0..w
            invariant
                total == toks@.len(),
                p + w <= total,
                pt == toks.deep_view(),
                window@.len() == t,
                forall|k: int| 0 <= k < t ==> window.deep_view()[k] == pt[p + k],
        {
            let x = toks[p + t].clone();
            proof {
                assert(toks.deep_view()[p + t] == toks@[p + t]@);
            }
            let ghost before = window.deep_view();
            window.push(x);
            proof {
                assert(window.deep_view() =~= before.push(pt[p + t]));
            }
        }
        proof {
            assert(window.deep_view() =~= pt.subrange(p as int, p + w));
            lemma_cand_lens_shift(m, pt, p as int, w as int, w as int);
            lemma_cand_lens_bounds(m, pt, p as int, w as int);
        }
        let ghost c = cand_lens(m, pt, p as int, w as int);
        let win_slice = window.as_slice();
        proof {
            assert(win_slice.deep_view() =~= window.deep_view());
        }
        match self.traverse(win_slice) {
            Err(_) => {
                proof {
                    assert(c.len() == 0);
                    assert(window_model(m, pt, po, p as int, w as int, sel) =~= Seq::<
                        SpanV,
                    >::empty());
                }
                let r: Vec<(String, Vec<Match>, usize, usize)> = Vec::new();
                proof {
                    assert(r.deep_view() =~= Seq::<SpanV>::empty());
                }
                r
            },
            Ok(list) => {
                proof {
                    assert(c.len() > 0);
                    assert forall|j: int| 0 <= j < c.len() implies (
                    #[trigger] list.deep_view()[j]).search_terms == pt.subrange(
                        p as int,
                        p + c[j],
                    ) && list.deep_view()[j].search_results == m[pt.subrange(p as int, p + c[j])] by {
                        assert(list.deep_view()[j].search_terms == window.deep_view().subrange(
                            0,
                            c[j],
                        ));
                        assert(window.deep_view().subrange(0, c[j]) =~= pt.subrange(
                            p as int,
                            p + c[j],
                        ));
                    }
                }
                let start = offs[p].0;
                let mut out: Vec<(String, Vec<Match>, usize, usize)> = Vec::new();
                match sel {
                    ResultSelection::All => {
                        let ghost model = window_model(m, pt, po, p as int, w as int, sel);
                        let ln = list.len();
                        for j in 0..ln
                            invariant
                                self.wf(),
                                m == self.map_view(),
                                pt == toks.deep_view(),
                                po == offs@,
                                p + w <= pt.len(),
                                po.len() == pt.len(),
                                w >= 1,
                                sel == ResultSelection::All,
                                total == toks@.len(),
                                p + w <= total,
                                c == cand_lens(m, pt, p as int, w as int),
                                forall|q: int| 0 <= q < c.len() ==> 1 <= #[trigger] c[q] <= w,
                                ln == list@.len(),
                                list.deep_view().len() == c.len(),
                                forall|q: int|
                                    0 <= q < c.len() ==> (
                                    #[trigger] list.deep_view()[q]).search_terms == pt.subrange(
                                        p as int,
                                        p + c[q],
                                    ) && list.deep_view()[q].search_results == m[pt.subrange(
                                        p as int,
                                        p + c[q],
                                    )],
                                start == po[p as int].0,
                                model == window_model(m, pt, po, p as int, w as int, sel),
                                out@.len() == j,
                                forall|q: int|
                                    0 <= q < j ==> #[trigger] out.deep_view()[q] == model[q],
                        {
                            proof {
                                assert(list.deep_view()[j as int] == list@[j as int].deep_view());
                            }
                            let tr = &list[j];
                            let plen = tr.search_terms.len();
                            proof {
                                assert(tr.deep_view().search_terms.len() == plen);
                                assert(c[j as int] == plen);
                                assert(1 <= plen && p + plen <= total);
                            }
                            let end = offs[p + plen - 1].1;
                            let string = tr.get_search_term_string();
                            let matches = tr.get_search_results();
                            let ghost before = out.deep_view();
                            out.push((string, matches, start, end));
                            proof {
                                assert(out.deep_view() =~= before.push(out@[j as int].deep_view()));
                                assert(out@[j as int].deep_view() == model[j as int]);
                            }
                        }
                        proof {
                            assert(out.deep_view() =~= window_model(
                                m,
                                pt,
                                po,
                                p as int,
                                w as int,
                                sel,
                            ));
                        }
                    },
                    ResultSelection::Last => {
                        proof {
                            assert(list.deep_view()[c.len() - 1] == list@[c.len() - 1].deep_view());
                            assert(c.last() == c[c.len() - 1]);
                        }
                        let tr = &list[list.len() - 1];
                        let plen = tr.search_terms.len();
                        proof {
                            assert(tr.deep_view().search_terms.len() == plen);
                            assert(c[c.len() - 1] == plen);
                            assert(1 <= plen && p + plen <= total);
                        }
                        let end = offs[p + plen - 1].1;
                        let string = tr.get_search_term_string();
                        let matches = tr.get_search_results();
                        out.push((string, matches, start, end));
                        proof {
                            assert(out.deep_view() =~= window_model(
                                m,
                                pt,
                                po,
                                p as int,
                                w as int,
                                sel,
                            ));
                        }
                    },
                    ResultSelection::LastPreferFull => {
                        proof {
                            assert(list.deep_view()[c.len() - 1] == list@[c.len() - 1].deep_view());
                            assert(c.last() == c[c.len() - 1]);
                        }
                        let tr = &list[list.len() - 1];
                        let plen = tr.search_terms.len();
                        proof {
                            assert(tr.deep_view().search_terms.len() == plen);
                            assert(c[c.len() - 1] == plen);
                            assert(1 <= plen && p + plen <= total);
                        }
                        let end = offs[p + plen - 1].1;
                        let string = tr.get_search_term_string();
                        let matches = if any_full(&tr.search_results) {
                            let kept = filter_full(&tr.search_results);
                            sort_matches(&kept)
                        } else {
                            tr.get_search_results()
                        };
                        out.push((string, matches, start, end));
                        proof {
                            assert(out.deep_view() =~= window_model(
                                m,
                                pt,
                                po,
                                p as int,
                                w as int,
                                sel,
                            ));
                        }
                    },
                }
                out
            },
        }
    }

    /// Relies on rayon's indexed parallel iterator: `map` keeps one result
    /// per position and `collect` returns them in position order, so the
    /// batch equals the position-wise result of the verified per-window
    /// function, whatever the worker count.
    #[verifier::external_body]
    fn par_window_spans(
        &self,
        toks: &Vec<String>,
        offs: &Vec<(usize, usize)>,
        n_windows: usize,
        w: usize,
        sel: ResultSelection,
    ) -> (r: Vec<Vec<(String, Vec<Match>, usize, usize)>>)
        requires
            self.wf(),
            w >= 1,
            n_windows + w <= toks@.len() + 1,
            toks@.len() == offs@.len(),
        ensures
            r@.len() == n_windows,
            forall|p: int|
                0 <= p < n_windows ==> (#[trigger] r@[p]).deep_view() == window_model(
                    self.map_view(),
                    toks.deep_view(),
                    offs@,
                    p,
                    w as int,
                    sel,
                ),
    {
        (0..n_windows).into_par_iter().map(|p| self.spans_for_window(toks, offs, p, w, sel)).collect()
    }

    /// Find every annotated span of `text` that matches an indexed term:
    /// tokenize, slide a window of the given (or default) size, emit one or
    /// more spans per matching window under the selection policy, and drop
    /// spans that end where the previously kept span ended.
    pub fn search(
        &self,
        text: &str,
        max_len: Option<usize>,
        result_selection: Option<&ResultSelection>,
    ) -> (r: Vec<(String, Vec<Match>, usize, usize)>)
        requires
            self.wf(),
        ensures
            r.deep_view() == search_model(
                self.state_view(),
                text@,
                max_len,
                selection_or_default(result_selection),
            ),
    {
        let sel = match result_selection {
            Some(s) => *s,
            None => ResultSelection::LastPreferFull,
        };
        let w = match max_len {
            Some(v) => v,
            None => self.tree_depth,
        };
        let tokenized = self.tokenize(text);
        let mut toks = tokenized.0;
        let mut offs = tokenized.1;
        let ghost m = self.map_view();
        if w == 0 || toks.len() == 0 {
            let r: Vec<(String, Vec<Match>, usize, usize)> = Vec::new();
            proof {
                assert(r.deep_view() =~= Seq::<SpanV>::empty());
            }
            return r;
        }
        let n = toks.len();
        let ghost t0 = toks.deep_view();
        let ghost o0 = offs@;
        for k in 0..w
            invariant
                n >= 1,
                toks@.len() == n + k,
                offs@.len() == n + k,
                n == t0.len(),
                o0.len() == n,
                toks.deep_view() == t0 + Seq::new(k as nat, |i: int| Seq::<char>::empty()),
                offs@ == o0 + Seq::new(k as nat, |i: int| (0usize, 0usize)),
        {
            let ghost tb = toks.deep_view();
            let ghost ob = offs@;
            toks.push(String::new());
            offs.push((0, 0));
            proof {
                assert(toks.deep_view() =~= tb.push(Seq::<char>::empty()));
                assert(t0 + Seq::new((k + 1) as nat, |i: int| Seq::<char>::empty()) =~= (t0
                    + Seq::new(k as nat, |i: int| Seq::<char>::empty())).push(Seq::<char>::empty()));
                assert(o0 + Seq::new((k + 1) as nat, |i: int| (0usize, 0usize)) =~= (o0 + Seq::new(
                    k as nat,
                    |i: int| (0usize, 0usize),
                )).push((0usize, 0usize)));
            }
        }
        let ghost pt = toks.deep_view();
        let ghost po = offs@;
        let padded_len = toks.len();
        proof {
            assert(padded_len == n + w);
            assert(n < padded_len);
        }
        let n_windows = n + 1;
        let parts = self.par_window_spans(&toks, &offs, n_windows, w, sel);
        let mut results: Vec<(String, Vec<Match>, usize, usize)> = Vec::new();
        proof {
            assert(results.deep_view() =~= spans_upto(m, pt, po, w as int, sel, 0));
        }
        for p in 0..n_windows
            invariant
                m == self.map_view(),
                parts@.len() == n_windows,
                forall|q: int|
                    0 <= q < n_windows ==> (#[trigger] parts@[q]).deep_view() == window_model(
                        m,
                        pt,
                        po,
                        q,
                        w as int,
                        sel,
                    ),
                results.deep_view() == spans_upto(m, pt, po, w as int, sel, p as int),
        {
            let ghost base = results.deep_view();
            let ghost ws = window_model(m, pt, po, p as int, w as int, sel);
            let inner_n = parts[p].len();
            proof {
                assert(parts@[p as int].deep_view().len() == ws.len());
            }
            for t in 0..inner_n
                invariant
                    inner_n == parts@[p as int]@.len(),
                    p < parts@.len(),
                    ws == parts@[p as int].deep_view(),
                    results.deep_view() == base + ws.subrange(0, t as int),
            {
                proof {
                    assert(parts@[p as int].deep_view()[t as int] == parts@[p as int]@[
                        t as int].deep_view());
                }
                let span = clone_span(&parts[p][t]);
                let ghost before = results.deep_view();
                results.push(span);
                proof {
                    assert(results.deep_view() =~= before.push(ws[t as int]));
                    assert(ws.subrange(0, t + 1) =~= ws.subrange(0, t as int).push(ws[t as int]));
                    assert(results.deep_view() =~= base + ws.subrange(0, t + 1));
                }
            }
            proof {
                assert(ws.subrange(0, inner_n as int) =~= ws);
                assert(results.deep_view() =~= spans_upto(m, pt, po, w as int, sel, p + 1));
            }
        }
        let ghost all = results.deep_view();
        let mut out: Vec<(String, Vec<Match>, usize, usize)> = Vec::new();
        let mut have_last = false;
        let mut last_end: usize = 0;
        let rn = results.len();
        proof {
            assert(out.deep_view() + dedupe_rec(all, 0, None::<int>) =~= dedupe(all));
        }
        for i in 0..rn
            invariant
                rn == results@.len(),
                all == results.deep_view(),
                all.len() == rn,
                out.deep_view() + dedupe_rec(
                    all,
                    i as int,
                    if have_last {
                        Some(last_end as int)
                    } else {
                        None
                    },
                ) == dedupe(all),
        {
            proof {
                assert(results.deep_view()[i as int] == results@[i as int].deep_view());
            }
            let ghost cur_last: Option<int> = if have_last {
                Some(last_end as int)
            } else {
                None
            };
            let e = results[i].3;
            if have_last && e == last_end {
                proof {
                    assert(cur_last == Some(all[i as int].3 as int));
                    assert(dedupe_rec(all, i as int, cur_last) == dedupe_rec(
                        all,
                        i + 1,
                        cur_last,
                    ));
                }
            } else {
                let span = clone_span(&results[i]);
                let ghost before = out.deep_view();
                out.push(span);
                have_last = true;
                last_end = e;
                proof {
                    assert(cur_last != Some(all[i as int].3 as int));
                    assert(dedupe_rec(all, i as int, cur_last) == seq![all[i as int]]
                        + dedupe_rec(all, i + 1, Some(all[i as int].3 as int)));
                    assert(out.deep_view() =~= before.push(all[i as int]));
                    assert(out.deep_view() + dedupe_rec(all, i + 1, Some(last_end as int)) =~= dedupe(
                        all,
                    ));
                }
            }
        }
        proof {
            assert(dedupe_rec(
                all,
                rn as int,
                if have_last {
                    Some(last_end as int)
                } else {
                    None
                },
            ) =~= Seq::<SpanV>::empty());
            assert(out.deep_view() =~= dedupe(all));
            assert(all == spans_upto(m, pt, po, w as int, sel, n as int + 1));
        }
        out
    }
}

proof fn lemma_insert_match_contains(m: Map<Seq<Seq<char>>, Seq<MatchV>>, k: Seq<Seq<char>>, v: MatchV)
    ensures
        insert_match(m, k, v).contains_key(k),
        insert_match(m, k, v)[k].contains(v),
{
    if m.contains_key(k) {
        if !m[k].contains(v) {
            assert(insert_match(m, k, v)[k][m[k].len() as int] == v);
        }
    } else {
        assert(insert_match(m, k, v)[k][0] == v);
    }
}

proof fn lemma_insert_match_preserves(
    m: Map<Seq<Seq<char>>, Seq<MatchV>>,
    k2: Seq<Seq<char>>,
    v2: MatchV,
    k: Seq<Seq<char>>,
    v: MatchV,
)
    requires
        m.contains_key(k),
        m[k].contains(v),
    ensures
        insert_match(m, k2, v2).contains_key(k),
        insert_match(m, k2, v2)[k].contains(v),
{
    if k2 == k && !m[k2].contains(v2) {
        let j = choose|j: int| 0 <= j < m[k].len() && m[k][j] == v;
        assert(insert_match(m, k2, v2)[k][j] == v);
    }
}

proof fn lemma_insert_all_preserves(
    st: IndexState,
    keys: Seq<Seq<Seq<char>>>,
    v2: MatchV,
    k: Seq<Seq<char>>,
    v: MatchV,
)
    requires
        st.0.contains_key(k),
        st.0[k].contains(v),
    ensures
        insert_all(st, keys, v2).0.contains_key(k),
        insert_all(st, keys, v2).0[k].contains(v),
    decreases keys.len(),
{
    if keys.len() > 0 {
        lemma_insert_all_preserves(st, keys.drop_last(), v2, k, v);
        lemma_insert_match_preserves(insert_all(st, keys.drop_last(), v2).0, keys.last(), v2, k, v);
    }
}

proof fn lemma_skip_gram_phase_preserves(
    st: IndexState,
    es: Seq<EntryV>,
    min_length: int,
    max_skips: int,
    k: Seq<Seq<char>>,
    v: MatchV,
)
    requires
        st.0.contains_key(k),
        st.0[k].contains(v),
    ensures
        skip_gram_phase(st, es, min_length, max_skips).0.contains_key(k),
        skip_gram_phase(st, es, min_length, max_skips).0[k].contains(v),
    decreases es.len(),
{
    if es.len() > 0 {
        lemma_skip_gram_phase_preserves(st, es.drop_last(), min_length, max_skips, k, v);
        let prev = skip_gram_phase(st, es.drop_last(), min_length, max_skips);
        let e = es.last();
        if min_length >= 0 && e.0.len() > min_length {
            lemma_insert_all_preserves(
                prev,
                skip_grams_model(seq![e.0], max_skips, min_length),
                skip_gram_match(e),
                k,
                v,
            );
        }
    }
}

proof fn lemma_abbrv_steps_preserves(
    st: IndexState,
    e: EntryV,
    min_suffix: int,
    count: int,
    k: Seq<Seq<char>>,
    v: MatchV,
)
    requires
        st.0.contains_key(k),
        st.0[k].contains(v),
    ensures
        abbrv_steps(st, e, min_suffix, count).0.contains_key(k),
        abbrv_steps(st, e, min_suffix, count).0[k].contains(v),
    decreases count,
{
    if count > 0 {
        lemma_abbrv_steps_preserves(st, e, min_suffix, count - 1, k, v);
        let prev = abbrv_steps(st, e, min_suffix, count - 1);
        if abbrv_allowed(e.0, count - 1, min_suffix) {
            lemma_insert_match_preserves(prev.0, abbrv_key(e.0, count - 1), abbrv_match(e), k, v);
        }
    }
}

proof fn lemma_abbrv_phase_preserves(
    st: IndexState,
    es: Seq<EntryV>,
    abbrv_max_index: int,
    min_suffix: int,
    k: Seq<Seq<char>>,
    v: MatchV,
)
    requires
        st.0.contains_key(k),
        st.0[k].contains(v),
    ensures
        abbrv_phase(st, es, abbrv_max_index, min_suffix).0.contains_key(k),
        abbrv_phase(st, es, abbrv_max_index, min_suffix).0[k].contains(v),
    decreases es.len(),
{
    if es.len() > 0 {
        lemma_abbrv_phase_preserves(st, es.drop_last(), abbrv_max_index, min_suffix, k, v);
        let prev = abbrv_phase(st, es.drop_last(), abbrv_max_index, min_suffix);
        let e = es.last();
        if e.0.len() > 1 {
            lemma_abbrv_steps_preserves(
                prev,
                e,
                min_suffix,
                abbrv_max(e.0.len() as int, abbrv_max_index) + 1,
                k,
                v,
            );
        }
    }
}

proof fn lemma_full_phase_covers(st: IndexState, es: Seq<EntryV>, i: int)
    requires
        0 <= i < es.len(),
    ensures
        full_phase(st, es).0.contains_key(es[i].0),
        full_phase(st, es).0[es[i].0].contains(full_match(es[i])),
    decreases es.len(),
{
    let prev = full_phase(st, es.drop_last());
    if i == es.len() - 1 {
        lemma_insert_match_contains(prev.0, es[i].0, full_match(es[i]));
    } else {
        lemma_full_phase_covers(st, es.drop_last(), i);
        assert(es.drop_last()[i] == es[i]);
        lemma_insert_match_preserves(prev.0, es.last().0, full_match(es.last()), es[i].0, full_match(es[i]));
    }
}

/// Law: build and query share one tokenization. After a load, every loaded
/// row is stored as a `Full` match exactly at the key that tokenizing its
/// search term yields, so a query tokenizing the same text probes that key.
pub proof fn lemma_full_insertions_at_tokenization(
    st: IndexState,
    entries: Seq<(Seq<char>, Seq<char>)>,
    generate_skip_grams: bool,
    skip_gram_min_length: int,
    skip_gram_max_skips: int,
    generate_abbrv: bool,
    abbrv_max_index: int,
    abbrv_min_suffix_length: int,
    i: int,
)
    requires
        0 <= i < entries.len(),
    ensures
        load_model(
            st,
            entries,
            generate_skip_grams,
            skip_gram_min_length,
            skip_gram_max_skips,
            generate_abbrv,
            abbrv_max_index,
            abbrv_min_suffix_length,
        ).0.contains_key(tokens_of(entries[i].0)),
        load_model(
            st,
            entries,
            generate_skip_grams,
            skip_gram_min_length,
            skip_gram_max_skips,
            generate_abbrv,
            abbrv_max_index,
            abbrv_min_suffix_length,
        ).0[tokens_of(entries[i].0)].contains(
            MatchV {
                match_type: MatchType::Full,
                match_string: entries[i].0,
                match_label: entries[i].1,
            },
        ),
{
    let es = tokenized_entries(entries);
    let v = full_match(es[i]);
    assert(v == MatchV {
        match_type: MatchType::Full,
        match_string: entries[i].0,
        match_label: entries[i].1,
    });
    lemma_full_phase_covers(st, es, i);
    let st1 = full_phase(st, es);
    let st2 = if generate_skip_grams {
        skip_gram_phase(st1, es, skip_gram_min_length, skip_gram_max_skips)
    } else {
        st1
    };
    if generate_skip_grams {
        lemma_skip_gram_phase_preserves(
            st1,
            es,
            skip_gram_min_length,
            skip_gram_max_skips,
            es[i].0,
            v,
        );
    }
    if generate_abbrv {
        lemma_abbrv_phase_preserves(
            st2,
            es,
            abbrv_max_index,
            abbrv_min_suffix_length,
            es[i].0,
            v,
        );
    }
}

/// The mapping is the same at key `k` in `m1` and `m2`.
pub open spec fn unchanged_at(
    m1: Map<Seq<Seq<char>>, Seq<MatchV>>,
    m2: Map<Seq<Seq<char>>, Seq<MatchV>>,
    k: Seq<Seq<char>>,
) -> bool {
    m1.contains_key(k) == m2.contains_key(k) && (m1.contains_key(k) ==> m1[k] == m2[k])
}

/// `v` can be reached from `t` by deleting at most `budget` tokens, none of
/// them at position 0.
pub open spec fn reachable_by_deletions(v: Seq<Seq<char>>, t: Seq<Seq<char>>, budget: int) -> bool
    decreases (if budget > 0 { budget } else { 0 }),
{
    v == t || (budget > 0 && exists|i: int|
        1 <= i < t.len() && reachable_by_deletions(v, #[trigger] t.remove(i), budget - 1))
}

proof fn lemma_deletions_all_membership(items: Seq<Seq<Seq<char>>>, x: Seq<Seq<char>>)
    requires
        deletions_all(items).contains(x),
    ensures
        exists|a: int, t: int|
            0 <= a < items.len() && 1 <= t < items[a].len() && x == #[trigger] items[a].remove(t),
    decreases items.len(),
{
    let d = deletions_all(items);
    let front = deletions_all(items.drop_last());
    let lastd = deletions_of(items.last());
    let j = choose|j: int| 0 <= j < d.len() && d[j] == x;
    if j < front.len() {
        assert(front[j] == x);
        assert(front.contains(x));
        lemma_deletions_all_membership(items.drop_last(), x);
        let (a, t) = choose|a: int, t: int|
            0 <= a < items.drop_last().len() && 1 <= t < items.drop_last()[a].len()
                && x == #[trigger] items.drop_last()[a].remove(t);
        assert(items[a] == items.drop_last()[a]);
        assert(1 <= t < items[a].len() && x == items[a].remove(t));
    } else {
        let t = j - front.len();
        assert(lastd[t] == x);
        assert(x == items.last().remove(t + 1));
        let a = items.len() - 1;
        assert(1 <= t + 1 < items[a].len() && x == items[a].remove(t + 1));
    }
}

proof fn lemma_skip_model_reachable(items: Seq<Seq<Seq<char>>>, max_skips: int, min_length: int, x: Seq<Seq<char>>)
    requires
        skip_grams_model(items, max_skips, min_length).contains(x),
    ensures
        items.contains(x) || exists|a: int|
            0 <= a < items.len() && reachable_by_deletions(
                x,
                #[trigger] items[a],
                if max_skips > 0 {
                    max_skips
                } else {
                    0
                },
            ) && min_length <= x.len() < items[a].len(),
    decreases (if max_skips > 0 { max_skips } else { 0 }),
{
    if max_skips > 0 && min_length >= 0 && all_longer_than(items, min_length) {
        let d = deletions_all(items);
        let rest = skip_grams_model(d, max_skips - 1, min_length);
        let out = skip_grams_model(items, max_skips, min_length);
        let j = choose|j: int| 0 <= j < out.len() && out[j] == x;
        if j < d.len() {
            assert(d[j] == x);
            assert(d.contains(x));
            lemma_deletions_all_membership(items, x);
            let (a, t) = choose|a: int, t: int|
                0 <= a < items.len() && 1 <= t < items[a].len() && x == #[trigger] items[a].remove(t);
            items[a].remove_ensures(t);
            assert(reachable_by_deletions(x, items[a].remove(t), max_skips - 1));
            assert(reachable_by_deletions(x, items[a], max_skips));
            assert(min_length <= x.len() < items[a].len());
        } else {
            assert(rest[j - d.len()] == x);
            assert(rest.contains(x));
            lemma_skip_model_reachable(d, max_skips - 1, min_length, x);
            if d.contains(x) {
                lemma_deletions_all_membership(items, x);
                let (a, t) = choose|a: int, t: int|
                    0 <= a < items.len() && 1 <= t < items[a].len() && x == #[trigger] items[a].remove(t);
                items[a].remove_ensures(t);
                assert(reachable_by_deletions(x, items[a].remove(t), max_skips - 1));
                assert(reachable_by_deletions(x, items[a], max_skips));
                assert(min_length <= x.len() < items[a].len());
            } else {
                let u = choose|u: int|
                    0 <= u < d.len() && reachable_by_deletions(
                        x,
                        #[trigger] d[u],
                        if max_skips - 1 > 0 {
                            max_skips - 1
                        } else {
                            0
                        },
                    ) && min_length <= x.len() < d[u].len();
                assert(d.contains(d[u]));
                lemma_deletions_all_membership(items, d[u]);
                let (a, t) = choose|a: int, t: int|
                    0 <= a < items.len() && 1 <= t < items[a].len() && d[u] == #[trigger] items[a].remove(t);
                items[a].remove_ensures(t);
                if max_skips - 1 > 0 {
                    assert(reachable_by_deletions(x, items[a].remove(t), max_skips - 1));
                } else {
                    assert(x == d[u]);
                    assert(reachable_by_deletions(x, items[a].remove(t), max_skips - 1));
                }
                assert(reachable_by_deletions(x, items[a], max_skips));
                assert(x.len() < d[u].len() < items[a].len());
            }
        }
    }
}

proof fn lemma_insert_match_other(
    m: Map<Seq<Seq<char>>, Seq<MatchV>>,
    k2: Seq<Seq<char>>,
    v2: MatchV,
    k: Seq<Seq<char>>,
)
    requires
        k != k2,
    ensures
        unchanged_at(m, insert_match(m, k2, v2), k),
{
}

proof fn lemma_insert_all_changed(
    st: IndexState,
    keys: Seq<Seq<Seq<char>>>,
    v: MatchV,
    k: Seq<Seq<char>>,
)
    requires
        !keys.contains(k),
    ensures
        unchanged_at(st.0, insert_all(st, keys, v).0, k),
    decreases keys.len(),
{
    if keys.len() > 0 {
        assert(!keys.drop_last().contains(k)) by {
            if keys.drop_last().contains(k) {
                let j = choose|j: int|
                    0 <= j < keys.drop_last().len() && keys.drop_last()[j] == k;
                assert(keys[j] == k);
            }
        }
        lemma_insert_all_changed(st, keys.drop_last(), v, k);
        assert(keys.last() != k) by {
            assert(keys[keys.len() - 1] == keys.last());
        }
        lemma_insert_match_other(insert_all(st, keys.drop_last(), v).0, keys.last(), v, k);
    }
}

/// Law: the skip-gram phase only changes the mapping at keys that are
/// reachable from some entry's tokenization by deleting at most
/// `max_skips` tokens, never the one at position 0, and that are at least
/// `min_length` tokens long while shorter than the entry itself.
pub proof fn lemma_skip_gram_phase_bounds(
    st: IndexState,
    es: Seq<EntryV>,
    min_length: int,
    max_skips: int,
    k: Seq<Seq<char>>,
)
    requires
        !unchanged_at(st.0, skip_gram_phase(st, es, min_length, max_skips).0, k),
    ensures
        min_length >= 0,
        exists|a: int|
            0 <= a < es.len() && (#[trigger] es[a]).0.len() > min_length && reachable_by_deletions(
                k,
                es[a].0,
                if max_skips > 0 {
                    max_skips
                } else {
                    0
                },
            ) && (k == es[a].0 || min_length <= k.len() < es[a].0.len()),
    decreases es.len(),
{
    if es.len() > 0 {
        let prev = skip_gram_phase(st, es.drop_last(), min_length, max_skips);
        let e = es.last();
        let cur = skip_gram_phase(st, es, min_length, max_skips);
        if min_length >= 0 && e.0.len() > min_length {
            let keys = skip_grams_model(seq![e.0], max_skips, min_length);
            if keys.contains(k) {
                lemma_skip_model_reachable(seq![e.0], max_skips, min_length, k);
                let a = es.len() - 1;
                assert(es[a] == e);
                if seq![e.0].contains(k) {
                    assert(k == e.0);
                    assert(reachable_by_deletions(k, es[a].0, if max_skips > 0 { max_skips } else { 0 }));
                } else {
                    let u = choose|u: int|
                        0 <= u < seq![e.0].len() && reachable_by_deletions(
                            k,
                            #[trigger] seq![e.0][u],
                            if max_skips > 0 {
                                max_skips
                            } else {
                                0
                            },
                        ) && min_length <= k.len() < seq![e.0][u].len();
                    assert(seq![e.0][u] == e.0);
                }
            } else {
                lemma_insert_all_changed(prev, keys, skip_gram_match(e), k);
                assert(!unchanged_at(st.0, prev.0, k));
                lemma_skip_gram_phase_bounds(st, es.drop_last(), min_length, max_skips, k);
                let a = choose|a: int|
                    0 <= a < es.drop_last().len() && (#[trigger] es.drop_last()[a]).0.len()
                        > min_length && reachable_by_deletions(
                        k,
                        es.drop_last()[a].0,
                        if max_skips > 0 {
                            max_skips
                        } else {
                            0
                        },
                    ) && (k == es.drop_last()[a].0 || min_length <= k.len() < es.drop_last()[a].0.len());
                assert(es[a] == es.drop_last()[a]);
            }
        } else {
            lemma_skip_gram_phase_bounds(st, es.drop_last(), min_length, max_skips, k);
            let a = choose|a: int|
                0 <= a < es.drop_last().len() && (#[trigger] es.drop_last()[a]).0.len()
                    > min_length && reachable_by_deletions(
                    k,
                    es.drop_last()[a].0,
                    if max_skips > 0 {
                        max_skips
                    } else {
                        0
                    },
                ) && (k == es.drop_last()[a].0 || min_length <= k.len() < es.drop_last()[a].0.len());
            assert(es[a] == es.drop_last()[a]);
        }
    }
}

proof fn lemma_abbrv_steps_changed(
    st: IndexState,
    e: EntryV,
    min_suffix: int,
    count: int,
    k: Seq<Seq<char>>,
)
    requires
        !unchanged_at(st.0, abbrv_steps(st, e, min_suffix, count).0, k),
    ensures
        exists|i: int|
            0 <= i < count && abbrv_allowed(e.0, i, min_suffix) && k == abbrv_key(e.0, i),
    decreases count,
{
    if count > 0 {
        let prev = abbrv_steps(st, e, min_suffix, count - 1);
        let i = count - 1;
        if abbrv_allowed(e.0, i, min_suffix) && k == abbrv_key(e.0, i) {
        } else {
            if abbrv_allowed(e.0, i, min_suffix) {
                lemma_insert_match_other(prev.0, abbrv_key(e.0, i), abbrv_match(e), k);
            }
            lemma_abbrv_steps_changed(st, e, min_suffix, count - 1, k);
        }
    }
}

/// Law: the abbreviation phase only changes the mapping at keys obtained
/// from an entry of more than one token by replacing the token at an index
/// within the configured inclusive bound by its first character, and only
/// where the tokens after that index are long enough in total.
pub proof fn lemma_abbrv_phase_bounds(
    st: IndexState,
    es: Seq<EntryV>,
    abbrv_max_index: int,
    min_suffix: int,
    k: Seq<Seq<char>>,
)
    requires
        !unchanged_at(st.0, abbrv_phase(st, es, abbrv_max_index, min_suffix).0, k),
    ensures
        exists|a: int, i: int|
            0 <= a < es.len() && es[a].0.len() > 1 && 0 <= i <= abbrv_max(
                es[a].0.len() as int,
                abbrv_max_index,
            ) && abbrv_allowed(es[a].0, i, min_suffix) && k == #[trigger] abbrv_key(es[a].0, i),
    decreases es.len(),
{
    if es.len() > 0 {
        let prev = abbrv_phase(st, es.drop_last(), abbrv_max_index, min_suffix);
        let e = es.last();
        if e.0.len() > 1 && !unchanged_at(
            prev.0,
            abbrv_steps(prev, e, min_suffix, abbrv_max(e.0.len() as int, abbrv_max_index) + 1).0,
            k,
        ) {
            lemma_abbrv_steps_changed(
                prev,
                e,
                min_suffix,
                abbrv_max(e.0.len() as int, abbrv_max_index) + 1,
                k,
            );
            let i = choose|i: int|
                0 <= i < abbrv_max(e.0.len() as int, abbrv_max_index) + 1 && abbrv_allowed(
                    e.0,
                    i,
                    min_suffix,
                ) && k == abbrv_key(e.0, i);
            let a = es.len() - 1;
            assert(es[a] == e);
            assert(0 <= i <= abbrv_max(es[a].0.len() as int, abbrv_max_index));
        } else {
            lemma_abbrv_phase_bounds(st, es.drop_last(), abbrv_max_index, min_suffix, k);
            let (a, i) = choose|a: int, i: int|
                0 <= a < es.drop_last().len() && es.drop_last()[a].0.len() > 1 && 0 <= i
                    <= abbrv_max(es.drop_last()[a].0.len() as int, abbrv_max_index)
                    && abbrv_allowed(es.drop_last()[a].0, i, min_suffix) && k == #[trigger] abbrv_key(es.drop_last()[a].0, i);
            assert(es[a] == es.drop_last()[a]);
        }
    }
}

/// Law: inserting the same record twice leaves the index exactly as one
/// insertion left it, in mapping and in depth.
pub proof fn lemma_insert_idempotent(st: IndexState, k: Seq<Seq<char>>, v: MatchV)
    ensures
        insert_one(insert_one(st, k, v), k, v) == insert_one(st, k, v),
{
    let st1 = insert_one(st, k, v);
    assert(st1.0.contains_key(k));
    assert(st1.0[k].contains(v)) by {
        if st.0.contains_key(k) {
            if !st.0[k].contains(v) {
                assert(st1.0[k] == st.0[k].push(v));
                assert(st1.0[k][st.0[k].len() as int] == v);
            }
        } else {
            assert(st1.0[k] == seq![v]);
            assert(st1.0[k][0] == v);
        }
    }
    assert(insert_one(st1, k, v).0 == st1.0);
    assert(insert_one(st1, k, v).1 == st1.1);
}

/// Law: under `LastPreferFull`, if the selected candidate's stored matches
/// contain any `Full` record, the emitted span's match list holds `Full`
/// records only.
pub proof fn lemma_last_prefer_full(
    m: Map<Seq<Seq<char>>, Seq<MatchV>>,
    toks: Seq<Seq<char>>,
    offs: Seq<(usize, usize)>,
    p: int,
    w: int,
)
    requires
        cand_lens(m, toks, p, w).len() > 0,
        has_full(m[toks.subrange(p, p + cand_lens(m, toks, p, w).last())]),
    ensures
        window_model(m, toks, offs, p, w, ResultSelection::LastPreferFull).len() == 1,
        forall|t: int|
            0 <= t < window_model(m, toks, offs, p, w, ResultSelection::LastPreferFull)[0].1.len()
                ==> is_full(
                #[trigger] window_model(m, toks, offs, p, w, ResultSelection::LastPreferFull)[0].1[t],
            ),
{
    let c = cand_lens(m, toks, p, w);
    let stored = m[toks.subrange(p, p + c.last())];
    let kept = stored.filter(full_pred());
    let chosen = sorted_of(kept);
    lemma_match_order_total();
    kept.lemma_sort_by_ensures(match_order());
    assert(chosen.to_multiset() == kept.to_multiset());
    chosen.to_multiset_ensures();
    kept.to_multiset_ensures();
    assert forall|t: int| 0 <= t < chosen.len() implies is_full(#[trigger] chosen[t]) by {
        assert(chosen.contains(chosen[t]));
        assert(chosen.to_multiset().count(chosen[t]) > 0);
        assert(kept.contains(chosen[t]));
        let j = choose|j: int| 0 <= j < kept.len() && kept[j] == chosen[t];
        stored.lemma_filter_pred(full_pred(), j);
    }
}

/// Law: after dedupe, no two neighbouring retained spans share an end
/// offset; the head of the emitted list always survives, and within a run
/// of spans sharing one end offset the earliest is the one kept (dedupe
/// drops a span only when the span retained just before it has its end).
pub proof fn lemma_dedupe_adjacent_ends_differ(s: Seq<SpanV>)
    ensures
        forall|i: int|
            0 <= i < dedupe(s).len() - 1 ==> (#[trigger] dedupe(s)[i]).3 != dedupe(s)[i + 1].3,
        s.len() > 0 ==> dedupe(s).len() > 0 && dedupe(s)[0] == s[0],
{
    lemma_dedupe_rec_adjacent(s, 0, None);
    if s.len() > 0 {
        assert(dedupe(s) == seq![s[0]] + dedupe_rec(s, 1, Some(s[0].3 as int)));
    }
}

proof fn lemma_dedupe_rec_adjacent(s: Seq<SpanV>, i: int, last_end: Option<int>)
    ensures
        forall|t: int|
            0 <= t < dedupe_rec(s, i, last_end).len() - 1 ==> (#[trigger] dedupe_rec(
                s,
                i,
                last_end,
            )[t]).3 != dedupe_rec(s, i, last_end)[t + 1].3,
        dedupe_rec(s, i, last_end).len() > 0 ==> Some(
            dedupe_rec(s, i, last_end)[0].3 as int,
        ) != last_end,
    decreases s.len() - i,
{
    if i < 0 || i >= s.len() {
    } else if last_end == Some(s[i].3 as int) {
        lemma_dedupe_rec_adjacent(s, i + 1, last_end);
    } else {
        let tail = dedupe_rec(s, i + 1, Some(s[i].3 as int));
        lemma_dedupe_rec_adjacent(s, i + 1, Some(s[i].3 as int));
        let r = dedupe_rec(s, i, last_end);
        assert(r == seq![s[i]] + tail);
        assert forall|t: int| 0 <= t < r.len() - 1 implies (#[trigger] r[t]).3 != r[t + 1].3 by {
            if t == 0 {
                assert(r[0] == s[i]);
                assert(tail.len() > 0);
                assert(r[1] == tail[0]);
                assert(Some(tail[0].3 as int) != Some(s[i].3 as int));
            } else {
                assert(r[t] == tail[t - 1]);
                assert(r[t + 1] == tail[t]);
            }
        }
    }
}

proof fn lemma_offs_start_mono(offs: Seq<(usize, usize)>, i: int, j: int)
    requires
        forall|t: int| 0 <= t < offs.len() - 1 ==> (#[trigger] offs[t]).0 <= offs[t + 1].0,
        0 <= i <= j < offs.len(),
    ensures
        offs[i].0 <= offs[j].0,
    decreases j - i,
{
    if i < j {
        lemma_offs_start_mono(offs, i, j - 1);
        assert(offs[j - 1].0 <= offs[j].0);
    }
}

proof fn lemma_cand_lens_contains(
    m: Map<Seq<Seq<char>>, Seq<MatchV>>,
    toks: Seq<Seq<char>>,
    p: int,
    upto: int,
)
    ensures
        forall|j: int|
            0 <= j < cand_lens(m, toks, p, upto).len() ==> m.contains_key(
                toks.subrange(p, p + #[trigger] cand_lens(m, toks, p, upto)[j]),
            ),
    decreases upto,
{
    if upto > 0 {
        lemma_cand_lens_contains(m, toks, p, upto - 1);
        let pre = cand_lens(m, toks, p, upto - 1);
        let c = cand_lens(m, toks, p, upto);
        assert forall|j: int|
            0 <= j < c.len() implies m.contains_key(
            toks.subrange(p, p + #[trigger] c[j]),
        ) by {
            if m.contains_key(toks.subrange(p, p + upto)) {
                if j < pre.len() {
                    assert(c[j] == pre[j]);
                } else {
                    assert(c[j] == upto);
                }
            } else {
                assert(c[j] == pre[j]);
            }
        }
    }
}

/// All keys of the mapping consist of non-empty tokens.
pub open spec fn keys_nonempty(m: Map<Seq<Seq<char>>, Seq<MatchV>>) -> bool {
    forall|k: Seq<Seq<char>>, j: int|
        #![trigger m.dom().contains(k), k[j]]
        m.dom().contains(k) && 0 <= j < k.len() ==> k[j].len() > 0
}

proof fn lemma_window_model_offsets(
    m: Map<Seq<Seq<char>>, Seq<MatchV>>,
    toks: Seq<Seq<char>>,
    offs: Seq<(usize, usize)>,
    pt: Seq<Seq<char>>,
    po: Seq<(usize, usize)>,
    p: int,
    w: int,
    sel: ResultSelection,
    text_len: int,
)
    requires
        toks.len() == offs.len(),
        w >= 1,
        0 <= p <= toks.len(),
        pt == toks + Seq::new(w as nat, |i: int| Seq::<char>::empty()),
        po == offs + Seq::new(w as nat, |i: int| (0usize, 0usize)),
        forall|t: int| 0 <= t < offs.len() ==> (#[trigger] offs[t]).0 <= offs[t].1 <= text_len,
        forall|t: int| 0 <= t < offs.len() - 1 ==> (#[trigger] offs[t]).0 <= offs[t + 1].0,
        keys_nonempty(m),
    ensures
        forall|i: int|
            0 <= i < window_model(m, pt, po, p, w, sel).len() ==> (#[trigger] window_model(
                m,
                pt,
                po,
                p,
                w,
                sel,
            )[i]).2 <= window_model(m, pt, po, p, w, sel)[i].3 <= text_len,
{
    let c = cand_lens(m, pt, p, w);
    lemma_cand_lens_bounds(m, pt, p, w);
    lemma_cand_lens_contains(m, pt, p, w);
    let spans = window_model(m, pt, po, p, w, sel);
    let n = toks.len();
    assert forall|i: int| 0 <= i < spans.len() implies (#[trigger] spans[i]).2 <= spans[i].3
        <= text_len by {
        let l = if sel == ResultSelection::All {
            c[i]
        } else {
            c[c.len() - 1]
        };
        assert(1 <= l <= w);
        let key = pt.subrange(p, p + l);
        assert(m.contains_key(key));
        assert(spans[i].2 == po[p].0 && spans[i].3 == po[p + l - 1].1);
        assert(p + l - 1 < n) by {
            if p + l - 1 >= n {
                assert(key[l - 1] == pt[p + l - 1]);
                assert(pt[p + l - 1] =~= Seq::<char>::empty());
                assert(m.dom().contains(key));
                assert(key[l - 1].len() > 0);
            }
        }
        assert(po[p] == offs[p]);
        assert(po[p + l - 1] == offs[p + l - 1]);
        lemma_offs_start_mono(offs, p, p + l - 1);
        assert(offs[p].0 <= offs[p + l - 1].0 <= offs[p + l - 1].1 <= text_len);
    }
}

proof fn lemma_spans_upto_offsets(
    m: Map<Seq<Seq<char>>, Seq<MatchV>>,
    toks: Seq<Seq<char>>,
    offs: Seq<(usize, usize)>,
    pt: Seq<Seq<char>>,
    po: Seq<(usize, usize)>,
    w: int,
    sel: ResultSelection,
    p_count: int,
    text_len: int,
)
    requires
        toks.len() == offs.len(),
        w >= 1,
        0 <= p_count <= toks.len() + 1,
        pt == toks + Seq::new(w as nat, |i: int| Seq::<char>::empty()),
        po == offs + Seq::new(w as nat, |i: int| (0usize, 0usize)),
        forall|t: int| 0 <= t < offs.len() ==> (#[trigger] offs[t]).0 <= offs[t].1 <= text_len,
        forall|t: int| 0 <= t < offs.len() - 1 ==> (#[trigger] offs[t]).0 <= offs[t + 1].0,
        keys_nonempty(m),
    ensures
        forall|i: int|
            0 <= i < spans_upto(m, pt, po, w, sel, p_count).len() ==> (#[trigger] spans_upto(
                m,
                pt,
                po,
                w,
                sel,
                p_count,
            )[i]).2 <= spans_upto(m, pt, po, w, sel, p_count)[i].3 <= text_len,
    decreases p_count,
{
    if p_count > 0 {
        lemma_spans_upto_offsets(m, toks, offs, pt, po, w, sel, p_count - 1, text_len);
        lemma_window_model_offsets(m, toks, offs, pt, po, p_count - 1, w, sel, text_len);
        let front = spans_upto(m, pt, po, w, sel, p_count - 1);
        let back = window_model(m, pt, po, p_count - 1, w, sel);
        let whole = spans_upto(m, pt, po, w, sel, p_count);
        assert forall|i: int| 0 <= i < whole.len() implies (#[trigger] whole[i]).2 <= whole[i].3
            <= text_len by {
            if i < front.len() {
                assert(whole[i] == front[i]);
            } else {
                assert(whole[i] == back[i - front.len()]);
            }
        }
    }
}

proof fn lemma_dedupe_rec_members(s: Seq<SpanV>, i: int, last_end: Option<int>)
    ensures
        forall|t: int|
            0 <= t < dedupe_rec(s, i, last_end).len() ==> exists|j: int|
                0 <= j < s.len() && #[trigger] dedupe_rec(s, i, last_end)[t] == s[j],
    decreases s.len() - i,
{
    if i < 0 || i >= s.len() {
    } else if last_end == Some(s[i].3 as int) {
        lemma_dedupe_rec_members(s, i + 1, last_end);
    } else {
        lemma_dedupe_rec_members(s, i + 1, Some(s[i].3 as int));
        let tail = dedupe_rec(s, i + 1, Some(s[i].3 as int));
        let r = dedupe_rec(s, i, last_end);
        assert forall|t: int|
            0 <= t < r.len() implies exists|j: int| 0 <= j < s.len() && #[trigger] r[t] == s[j] by {
            if t == 0 {
                assert(r[0] == s[i]);
            } else {
                assert(r[t] == tail[t - 1]);
            }
        }
    }
}

/// Law: every span the search pipeline emits has valid character offsets,
/// `start <= end <= |text|`, provided every index key consists of non-empty
/// tokens and the token offsets are in-bounds, ordered pairs whose starts
/// do not decrease from one token to the next — which is what the
/// tokenizer hands the search for any text of the given length.
pub proof fn lemma_span_offsets_valid(
    m: Map<Seq<Seq<char>>, Seq<MatchV>>,
    toks: Seq<Seq<char>>,
    offs: Seq<(usize, usize)>,
    w: int,
    sel: ResultSelection,
    text_len: int,
)
    requires
        toks.len() == offs.len(),
        w >= 1,
        forall|t: int| 0 <= t < offs.len() ==> (#[trigger] offs[t]).0 <= offs[t].1 <= text_len,
        forall|t: int| 0 <= t < offs.len() - 1 ==> (#[trigger] offs[t]).0 <= offs[t + 1].0,
        keys_nonempty(m),
    ensures
        ({
            let pt = toks + Seq::new(w as nat, |i: int| Seq::<char>::empty());
            let po = offs + Seq::new(w as nat, |i: int| (0usize, 0usize));
            let spans = dedupe(spans_upto(m, pt, po, w, sel, toks.len() as int + 1));
            forall|i: int|
                0 <= i < spans.len() ==> (#[trigger] spans[i]).2 <= spans[i].3 <= text_len
        }),
{
    let pt = toks + Seq::new(w as nat, |i: int| Seq::<char>::empty());
    let po = offs + Seq::new(w as nat, |i: int| (0usize, 0usize));
    let all = spans_upto(m, pt, po, w, sel, toks.len() as int + 1);
    lemma_spans_upto_offsets(m, toks, offs, pt, po, w, sel, toks.len() as int + 1, text_len);
    lemma_dedupe_rec_members(all, 0, None);
    let spans = dedupe(all);
    assert forall|i: int| 0 <= i < spans.len() implies (#[trigger] spans[i]).2 <= spans[i].3
        <= text_len by {
        let j = choose|j: int| 0 <= j < all.len() && spans[i] == all[j];
        assert(all[j].2 <= all[j].3 <= text_len);
    }
}

proof fn lemma_cand_lens_shift(
    m: Map<Seq<Seq<char>>, Seq<MatchV>>,
    pt: Seq<Seq<char>>,
    p: int,
    w: int,
    upto: int,
)
    requires
        0 <= p,
        p + w <= pt.len(),
        0 <= upto <= w,
    ensures
        cand_lens(m, pt.subrange(p, p + w), 0, upto) == cand_lens(m, pt, p, upto),
    decreases upto,
{
    if upto > 0 {
        lemma_cand_lens_shift(m, pt, p, w, upto - 1);
        assert(pt.subrange(p, p + w).subrange(0, upto) =~= pt.subrange(p, p + upto));
    }
}

fn clone_span(s: &(String, Vec<Match>, usize, usize)) -> (r: (String, Vec<Match>, usize, usize))
    ensures
        r.deep_view() == s.deep_view(),
{
    (s.0.clone(), clone_matches(&s.1), s.2, s.3)
}

proof fn lemma_sum_from_nonneg(tok: Seq<Seq<char>>, j: int)
    ensures
        sum_from(tok, j) >= 0,
    decreases tok.len() - j,
{
    if j < tok.len() {
        lemma_sum_from_nonneg(tok, j + 1);
    }
}

/// The mathematical value of an `EntryType`.
pub type EntryV = (Seq<Seq<char>>, Seq<char>, Seq<char>);

/// The whole observable state of the index: its mapping and its depth.
pub type IndexState = (Map<Seq<Seq<char>>, Seq<MatchV>>, nat);

pub open spec fn depth_step(d: nat, l: nat) -> nat {
    if l > d {
        l
    } else {
        d
    }
}

/// One insertion, over the whole index state.
pub open spec fn insert_one(st: IndexState, k: Seq<Seq<char>>, v: MatchV) -> IndexState {
    (insert_match(st.0, k, v), depth_step(st.1, k.len()))
}

/// Insert the same match record at each key of a list, in list order.
pub open spec fn insert_all(st: IndexState, keys: Seq<Seq<Seq<char>>>, v: MatchV) -> IndexState
    decreases keys.len(),
{
    if keys.len() == 0 {
        st
    } else {
        insert_one(insert_all(st, keys.drop_last(), v), keys.last(), v)
    }
}

pub open spec fn full_match(e: EntryV) -> MatchV {
    MatchV { match_type: MatchType::Full, match_string: e.1, match_label: e.2 }
}

pub open spec fn skip_gram_match(e: EntryV) -> MatchV {
    MatchV { match_type: MatchType::SkipGram, match_string: e.1, match_label: e.2 }
}

pub open spec fn abbrv_match(e: EntryV) -> MatchV {
    MatchV { match_type: MatchType::Abbreviated, match_string: e.1, match_label: e.2 }
}

/// Insert every entry at its own tokenization, as a `Full` match.
pub open spec fn full_phase(st: IndexState, es: Seq<EntryV>) -> IndexState
    decreases es.len(),
{
    if es.len() == 0 {
        st
    } else {
        insert_one(full_phase(st, es.drop_last()), es.last().0, full_match(es.last()))
    }
}

/// For each entry longer than the minimum, insert all its skip-gram
/// variants as `SkipGram` matches.
pub open spec fn skip_gram_phase(
    st: IndexState,
    es: Seq<EntryV>,
    min_length: int,
    max_skips: int,
) -> IndexState
    decreases es.len(),
{
    if es.len() == 0 {
        st
    } else {
        let prev = skip_gram_phase(st, es.drop_last(), min_length, max_skips);
        let e = es.last();
        if min_length >= 0 && e.0.len() > min_length {
            insert_all(prev, skip_grams_model(seq![e.0], max_skips, min_length), skip_gram_match(e))
        } else {
            prev
        }
    }
}

/// Total character length of the tokens from position `j` on.
pub open spec fn sum_from(tok: Seq<Seq<char>>, j: int) -> int
    decreases tok.len() - j,
{
    if j >= tok.len() {
        0
    } else {
        tok[j].len() + sum_from(tok, j + 1)
    }
}

/// The largest token index that may be abbreviated: the last one, unless a
/// non-negative bound lower than that was configured (the bound is inclusive).
pub open spec fn abbrv_max(tok_len: int, abbrv_max_index: int) -> int {
    if abbrv_max_index < 0 || abbrv_max_index > tok_len - 1 {
        tok_len - 1
    } else {
        abbrv_max_index
    }
}

/// Abbreviating token `i` is allowed unless a positive minimum suffix length
/// is configured and the tokens after `i` are shorter than it in total.
pub open spec fn abbrv_allowed(tok: Seq<Seq<char>>, i: int, min_suffix: int) -> bool {
    !(min_suffix > 0 && sum_from(tok, i + 1) < min_suffix)
}

/// The key of the abbreviation variant: token `i` replaced by its first character.
pub open spec fn abbrv_key(tok: Seq<Seq<char>>, i: int) -> Seq<Seq<char>> {
    tok.update(i, seq![tok[i][0]])
}

/// Insert the abbreviation variants of one entry for indices `0 .. count`,
/// in index order, skipping indices whose suffix is too short.
pub open spec fn abbrv_steps(st: IndexState, e: EntryV, min_suffix: int, count: int) -> IndexState
    decreases count,
{
    if count <= 0 {
        st
    } else {
        let prev = abbrv_steps(st, e, min_suffix, count - 1);
        let i = count - 1;
        if abbrv_allowed(e.0, i, min_suffix) {
            insert_one(prev, abbrv_key(e.0, i), abbrv_match(e))
        } else {
            prev
        }
    }
}

/// For each entry of more than one token, insert its abbreviation variants
/// as `Abbreviated` matches.
pub open spec fn abbrv_phase(
    st: IndexState,
    es: Seq<EntryV>,
    abbrv_max_index: int,
    min_suffix: int,
) -> IndexState
    decreases es.len(),
{
    if es.len() == 0 {
        st
    } else {
        let prev = abbrv_phase(st, es.drop_last(), abbrv_max_index, min_suffix);
        let e = es.last();
        if e.0.len() > 1 {
            abbrv_steps(prev, e, min_suffix, abbrv_max(e.0.len() as int, abbrv_max_index) + 1)
        } else {
            prev
        }
    }
}

/// Every token of every entry's key is non-empty.
pub open spec fn entry_tokens_nonempty(es: Seq<EntryV>) -> bool {
    forall|i: int, j: int|
        0 <= i < es.len() && 0 <= j < es[i].0.len() ==> (#[trigger] es[i].0[j]).len() > 0
}

/// Pair each raw `(search term, label)` row with the tokenization of its
/// search term.
pub open spec fn tokenized_entries(entries: Seq<(Seq<char>, Seq<char>)>) -> Seq<EntryV> {
    Seq::new(entries.len(), |i: int| (tokens_of(entries[i].0), entries[i].0, entries[i].1))
}

/// What a whole load does to the index state: all `Full` entries first, then
/// the skip-gram variants if enabled, then the abbreviation variants if
/// enabled.
pub open spec fn load_model(
    st: IndexState,
    entries: Seq<(Seq<char>, Seq<char>)>,
    generate_skip_grams: bool,
    skip_gram_min_length: int,
    skip_gram_max_skips: int,
    generate_abbrv: bool,
    abbrv_max_index: int,
    abbrv_min_suffix_length: int,
) -> IndexState {
    let es = tokenized_entries(entries);
    let st1 = full_phase(st, es);
    let st2 = if generate_skip_grams {
        skip_gram_phase(st1, es, skip_gram_min_length, skip_gram_max_skips)
    } else {
        st1
    };
    if generate_abbrv {
        abbrv_phase(st2, es, abbrv_max_index, abbrv_min_suffix_length)
    } else {
        st2
    }
}

/// The matched text of a span: the key's tokens joined by single spaces.
pub open spec fn join_spaces(ts: Seq<Seq<char>>) -> Seq<char>
    decreases ts.len(),
{
    if ts.len() == 0 {
        Seq::empty()
    } else if ts.len() == 1 {
        ts[0]
    } else {
        join_spaces(ts.drop_last()) + seq![' '] + ts.last()
    }
}

/// The mathematical value of one emitted span: matched text, matches in
/// presentation order, start and end character offsets.
pub type SpanV = (Seq<char>, Seq<MatchV>, usize, usize);

pub open spec fn is_full(v: MatchV) -> bool {
    v.match_type == MatchType::Full
}

/// `is_full` as a first-class predicate, for use with `filter`.
pub open spec fn full_pred() -> spec_fn(MatchV) -> bool {
    |v: MatchV| is_full(v)
}

pub open spec fn has_full(s: Seq<MatchV>) -> bool {
    exists|i: int| 0 <= i < s.len() && is_full(#[trigger] s[i])
}

/// The candidate prefix lengths of the window at `p`: every `l` in
/// `1 ..= upto` whose prefix of `l` tokens is a key, in ascending order.
pub open spec fn cand_lens(
    m: Map<Seq<Seq<char>>, Seq<MatchV>>,
    toks: Seq<Seq<char>>,
    p: int,
    upto: int,
) -> Seq<int>
    decreases upto,
{
    if upto <= 0 {
        Seq::empty()
    } else {
        let pre = cand_lens(m, toks, p, upto - 1);
        if m.contains_key(toks.subrange(p, p + upto)) {
            pre.push(upto)
        } else {
            pre
        }
    }
}

proof fn lemma_cand_lens_bounds(
    m: Map<Seq<Seq<char>>, Seq<MatchV>>,
    toks: Seq<Seq<char>>,
    p: int,
    upto: int,
)
    ensures
        forall|j: int|
            0 <= j < cand_lens(m, toks, p, upto).len() ==> 1 <= #[trigger] cand_lens(
                m,
                toks,
                p,
                upto,
            )[j] <= upto,
    decreases upto,
{
    if upto > 0 {
        lemma_cand_lens_bounds(m, toks, p, upto - 1);
        let pre = cand_lens(m, toks, p, upto - 1);
        let c = cand_lens(m, toks, p, upto);
        assert forall|j: int| 0 <= j < c.len() implies 1 <= #[trigger] c[j] <= upto by {
            if m.contains_key(toks.subrange(p, p + upto)) {
                if j < pre.len() {
                    assert(c[j] == pre[j]);
                } else {
                    assert(c[j] == upto);
                }
            } else {
                assert(c[j] == pre[j]);
            }
        }
    }
}

/// The span emitted for candidate length `l` at window `p`, with the given
/// match list.
pub open spec fn span_of(
    toks: Seq<Seq<char>>,
    offs: Seq<(usize, usize)>,
    p: int,
    l: int,
    matches: Seq<MatchV>,
) -> SpanV {
    (join_spaces(toks.subrange(p, p + l)), matches, offs[p].0, offs[p + l - 1].1)
}

/// What the window at `p` contributes under the given selection policy.
pub open spec fn window_model(
    m: Map<Seq<Seq<char>>, Seq<MatchV>>,
    toks: Seq<Seq<char>>,
    offs: Seq<(usize, usize)>,
    p: int,
    w: int,
    sel: ResultSelection,
) -> Seq<SpanV> {
    let c = cand_lens(m, toks, p, w);
    if c.len() == 0 {
        Seq::empty()
    } else {
        match sel {
            ResultSelection::All => Seq::new(
                c.len() as nat,
                |j: int| span_of(toks, offs, p, c[j], sorted_of(m[toks.subrange(p, p + c[j])])),
            ),
            ResultSelection::Last => {
                let l = c.last();
                seq![span_of(toks, offs, p, l, sorted_of(m[toks.subrange(p, p + l)]))]
            },
            ResultSelection::LastPreferFull => {
                let l = c.last();
                let stored = m[toks.subrange(p, p + l)];
                let chosen = if has_full(stored) {
                    sorted_of(stored.filter(full_pred()))
                } else {
                    sorted_of(stored)
                };
                seq![span_of(toks, offs, p, l, chosen)]
            },
        }
    }
}

/// All spans of the windows before `p_count`, in window order.
pub open spec fn spans_upto(
    m: Map<Seq<Seq<char>>, Seq<MatchV>>,
    toks: Seq<Seq<char>>,
    offs: Seq<(usize, usize)>,
    w: int,
    sel: ResultSelection,
    p_count: int,
) -> Seq<SpanV>
    decreases p_count,
{
    if p_count <= 0 {
        Seq::empty()
    } else {
        spans_upto(m, toks, offs, w, sel, p_count - 1) + window_model(
            m,
            toks,
            offs,
            p_count - 1,
            w,
            sel,
        )
    }
}

/// Drop every span whose end offset equals the end offset of the span
/// retained just before it.
pub open spec fn dedupe_rec(s: Seq<SpanV>, i: int, last_end: Option<int>) -> Seq<SpanV>
    decreases s.len() - i,
{
    if i < 0 || i >= s.len() {
        Seq::empty()
    } else if last_end == Some(s[i].3 as int) {
        dedupe_rec(s, i + 1, last_end)
    } else {
        seq![s[i]] + dedupe_rec(s, i + 1, Some(s[i].3 as int))
    }
}

pub open spec fn dedupe(s: Seq<SpanV>) -> Seq<SpanV> {
    dedupe_rec(s, 0, None)
}

pub open spec fn selection_or_default(sel: Option<&ResultSelection>) -> ResultSelection {
    match sel {
        Some(s) => *s,
        None => ResultSelection::LastPreferFull,
    }
}

/// Everything `search` returns, as a function of the index state, the query
/// text, and the two options: tokenize, pad, slide a window of size `w`,
/// emit spans per policy, then dedupe by end offset.
pub open spec fn search_model(
    st: IndexState,
    text: Seq<char>,
    max_len: Option<usize>,
    sel: ResultSelection,
) -> Seq<SpanV> {
    let w = match max_len {
        Some(m) => m as int,
        None => st.1 as int,
    };
    let toks = tokens_of(text);
    let offs = offsets_of(text);
    if w <= 0 || toks.len() == 0 {
        Seq::empty()
    } else {
        let pt = toks + Seq::new(w as nat, |i: int| Seq::<char>::empty());
        let po = offs + Seq::new(w as nat, |i: int| (0usize, 0usize));
        dedupe(spans_upto(st.0, pt, po, w, sel, toks.len() as int + 1))
    }
}

fn clone_matches(v: &Vec<Match>) -> (r: Vec<Match>)
    ensures
        r.deep_view() == v.deep_view(),
{
    let mut r: Vec<Match> = Vec::new();
    let n = v.len();
    for i in 0..n
        invariant
            n == v@.len(),
            r@.len() == i,
            forall|k: int| 0 <= k < i ==> r.deep_view()[k] == v.deep_view()[k],
    {
        let x = v[i].clone();
        proof {
            assert(v.deep_view()[i as int] == v@[i as int]@);
        }
        let ghost before = r.deep_view();
        r.push(x);
        proof {
            assert(r.deep_view() =~= before.push(v.deep_view()[i as int]));
        }
    }
    proof {
        assert(r.deep_view() =~= v.deep_view());
    }
    r
}

fn join_tokens(tokens: &Vec<String>) -> (r: String)
    ensures
        r@ == join_spaces(tokens.deep_view()),
{
    let mut s = String::new();
    let n = tokens.len();
    proof {
        assert(tokens.deep_view().subrange(0, 0) =~= Seq::<Seq<char>>::empty());
    }
    for j in 0..n
        invariant
            n == tokens@.len(),
            s@ == join_spaces(tokens.deep_view().subrange(0, j as int)),
    {
        proof {
            reveal_strlit(" ");
            assert(tokens.deep_view()[j as int] == tokens@[j as int]@);
        }
        if j > 0 {
            s.append(" ");
        }
        s.append(tokens[j].as_str());
        proof {
            let tv = tokens.deep_view();
            let prev = tv.subrange(0, j as int);
            let cur = tv.subrange(0, j + 1);
            assert(cur.drop_last() =~= prev);
            assert(cur.last() == tv[j as int]);
            if j == 0 {
                assert(cur.len() == 1);
                assert(s@ =~= tv[0]);
            }
        }
    }
    proof {
        assert(tokens.deep_view().subrange(0, n as int) =~= tokens.deep_view());
    }
    s
}

fn any_full(list: &Vec<Match>) -> (r: bool)
    ensures
        r == has_full(list.deep_view()),
{
    let n = list.len();
    for i in 0..n
        invariant
            n == list@.len(),
            forall|k: int| 0 <= k < i ==> !is_full(#[trigger] list.deep_view()[k]),
    {
        proof {
            assert(list.deep_view()[i as int] == list@[i as int]@);
        }
        if list[i].match_type.get_value() == 0 {
            proof {
                assert(list@[i as int]@.match_type == MatchType::Full) by {
                    lemma_rank_injective(list@[i as int]@.match_type, MatchType::Full);
                }
            }
            return true;
        }
    }
    proof {
        if has_full(list.deep_view()) {
            let k = choose|k: int|
                0 <= k < list.deep_view().len() && is_full(#[trigger] list.deep_view()[k]);
            assert(!is_full(list.deep_view()[k]));
        }
    }
    false
}

fn filter_full(list: &Vec<Match>) -> (r: Vec<Match>)
    ensures
        r.deep_view() == list.deep_view().filter(full_pred()),
{
    let mut r: Vec<Match> = Vec::new();
    let n = list.len();
    proof {
        assert(list.deep_view().subrange(0, 0) =~= Seq::<MatchV>::empty());
        assert(r.deep_view() =~= list.deep_view().subrange(0, 0).filter(full_pred()));
    }
    for i in 0..n
        invariant
            n == list@.len(),
            r.deep_view() == list.deep_view().subrange(0, i as int).filter(full_pred()),
    {
        proof {
            assert(list.deep_view()[i as int] == list@[i as int]@);
        }
        let ghost lv = list.deep_view();
        let ghost pre = lv.subrange(0, i as int);
        let ghost cur = lv.subrange(0, i + 1);
        proof {
            assert(cur.drop_last() =~= pre);
            assert(cur.last() == lv[i as int]);
            reveal(Seq::filter);
        }
        if list[i].match_type.get_value() == 0 {
            proof {
                assert(lv[i as int].match_type == MatchType::Full) by {
                    lemma_rank_injective(lv[i as int].match_type, MatchType::Full);
                }
                assert(full_pred()(lv[i as int]));
            }
            let x = list[i].clone();
            let ghost before = r.deep_view();
            r.push(x);
            proof {
                assert(r.deep_view() =~= before.push(lv[i as int]));
                assert(cur.filter(full_pred()) == pre.filter(full_pred()).push(lv[i as int]));
            }
        } else {
            proof {
                assert(lv[i as int].match_type.rank() != 0);
                assert(!full_pred()(lv[i as int]));
                assert(cur.filter(full_pred()) == pre.filter(full_pred()));
            }
        }
    }
    proof {
        assert(list.deep_view().subrange(0, n as int) =~= list.deep_view());
    }
    r
}

/// The candidates one window produced: a matched prefix and the match
/// records stored at it.
pub struct TraversalResult {
    search_terms: Vec<String>,
    search_results: Vec<Match>,
}

/// The mathematical value of a `TraversalResult`.
pub struct TraversalResultV {
    pub search_terms: Seq<Seq<char>>,
    pub search_results: Seq<MatchV>,
}

impl View for TraversalResult {
    type V = TraversalResultV;

    closed spec fn view(&self) -> TraversalResultV {
        TraversalResultV {
            search_terms: self.search_terms.deep_view(),
            search_results: self.search_results.deep_view(),
        }
    }
}

impl DeepView for TraversalResult {
    type V = TraversalResultV;

    open spec fn deep_view(&self) -> TraversalResultV {
        self.view()
    }
}

impl TraversalResult {
    /// The matched prefix, joined by single spaces.
    pub fn get_search_term_string(&self) -> (r: String)
        ensures
            r@ == join_spaces(self@.search_terms),
    {
        join_tokens(&self.search_terms)
    }

    /// The matches of this candidate, in presentation order.
    pub fn get_search_results(&self) -> (r: Vec<Match>)
        ensures
            r.deep_view() == sorted_of(self@.search_results),
    {
        sort_matches(&self.search_results)
    }
}

impl Default for HashMapSearchTree {
    fn default() -> (t: HashMapSearchTree)
        ensures
            t.wf(),
            t.map_view() == Map::<Seq<Seq<char>>, Seq<MatchV>>::empty(),
            t.depth_view() == 0,
    {
        let t = HashMapSearchTree {
            search_map: Vec::new(),
            tokenizer: Tokenizer::default(),
            tree_depth: 0,
        };
        proof {
            assert(t.entries_view() =~= Seq::<(Seq<Seq<char>>, Seq<MatchV>)>::empty());
        }
        t
    }
}

} // verus!
