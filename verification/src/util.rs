use vstd::prelude::*;
use tokenizers::normalizers::{Lowercase, NFKC};
use tokenizers::pre_tokenizers::punctuation::Punctuation;
use tokenizers::pre_tokenizers::whitespace::Whitespace;
use tokenizers::{
    NormalizerWrapper, OffsetReferential, OffsetType, PreTokenizedString, PreTokenizer,
    PreTokenizerWrapper, SplitDelimiterBehavior,
};
use tokenizers::Normalizer;

verus! {

/// Tokens of a text together with the character offsets of each token in
/// the original, un-normalized text.
pub type TokensAndOffsets = (Vec<String>, Vec<(usize, usize)>);

#[verifier::external_type_specification]
#[verifier::external_body]
pub struct ExNormalizerWrapper(NormalizerWrapper);

#[verifier::external_type_specification]
#[verifier::external_body]
pub struct ExPreTokenizerWrapper(PreTokenizerWrapper);

/// What the fixed tokenization pipeline produces for a text: the token
/// sequence and, for each token, its character offsets in the original text.
/// The pipeline is a pure function of the text, so the result carries a name
/// rather than a definition.
pub uninterp spec fn tokenization_of(text: Seq<char>) -> (Seq<Seq<char>>, Seq<(usize, usize)>);

/// The tokens the pipeline produces for a text.
pub open spec fn tokens_of(text: Seq<char>) -> Seq<Seq<char>> {
    tokenization_of(text).0
}

/// The token offsets the pipeline produces for a text.
pub open spec fn offsets_of(text: Seq<char>) -> Seq<(usize, usize)> {
    tokenization_of(text).1
}

/// Relies on the tokenizers constructors: assembles the fixed normalizer,
/// lower-casing followed by Unicode NFKC.
#[verifier::external_body]
fn default_normalizer() -> NormalizerWrapper {
    NormalizerWrapper::Sequence(tokenizers::normalizers::Sequence::new(vec![
        NormalizerWrapper::Lowercase(Lowercase),
        NormalizerWrapper::NFKC(NFKC::default()),
    ]))
}

/// Relies on the tokenizers constructors: assembles the fixed pre-tokenizer,
/// removing punctuation and then splitting on whitespace.
#[verifier::external_body]
fn default_pre_tokenizer() -> PreTokenizerWrapper {
    PreTokenizerWrapper::Sequence(tokenizers::pre_tokenizers::sequence::Sequence::new(vec![
        PreTokenizerWrapper::Punctuation(Punctuation::new(SplitDelimiterBehavior::Removed)),
        PreTokenizerWrapper::Whitespace(Whitespace::default()),
    ]))
}

/// The segmentation authority shared by index build and query. Every
/// `Tokenizer` carries the same fixed pipeline (the fields are private and
/// only `default` constructs one), so tokenization is a function of the
/// text alone.
pub struct Tokenizer {
    normalizer: NormalizerWrapper,
    pre_tokenizer: PreTokenizerWrapper,
}

impl Default for Tokenizer {
    fn default() -> (t: Tokenizer) {
        Tokenizer { normalizer: default_normalizer(), pre_tokenizer: default_pre_tokenizer() }
    }
}

impl Tokenizer {
    /// Relies on tokenizers' `PreTokenizedString`: normalization followed by
    /// pre-tokenization yields the non-empty normalized slices of the text, in
    /// text order, each with character offsets into the original text taken
    /// from a monotone alignment. Empty slices are filtered out by
    /// `PreTokenizedString::split`, and `OffsetType::Char` offsets are always
    /// within the character length of the original.
    #[verifier::external_body]
    pub fn tokenize(&self, string: &str) -> (r: TokensAndOffsets)
        ensures
            r.0.deep_view() == tokenization_of(string@).0,
            r.1@ == tokenization_of(string@).1,
            r.0@.len() == r.1@.len(),
            forall|i: int| 0 <= i < r.0@.len() ==> (#[trigger] r.0@[i])@.len() > 0,
            forall|i: int|
                0 <= i < r.1@.len() ==> (#[trigger] r.1@[i]).0 <= r.1@[i].1 <= string@.len(),
            forall|i: int|
                0 <= i < r.1@.len() - 1 ==> (#[trigger] r.1@[i]).0 <= r.1@[i + 1].0 && r.1@[i].1
                    <= r.1@[i + 1].1,
    {
        let mut s = PreTokenizedString::from(string);
        s.normalize(|n| self.normalizer.normalize(n)).expect("Failed during normalization!");
        self.pre_tokenizer.pre_tokenize(&mut s).expect("Failed during pre-tokenization!");
        let mut tokens = Vec::new();
        let mut offsets = Vec::new();
        for (slice, offset, _) in s.get_splits(OffsetReferential::Original, OffsetType::Char) {
            tokens.push(String::from(slice));
            offsets.push((offset.0, offset.1));
        }
        (tokens, offsets)
    }

    /// Tokenize a batch of texts; the output is ordered as the input.
    pub fn encode_batch(&self, inputs: &[&str]) -> (r: Vec<TokensAndOffsets>)
        ensures
            r@.len() == inputs@.len(),
            forall|i: int|
                0 <= i < inputs@.len() ==> (#[trigger] r@[i]).0.deep_view() == tokens_of(
                    inputs@[i]@,
                ) && r@[i].1@ == offsets_of(inputs@[i]@),
            forall|i: int, j: int|
                0 <= i < r@.len() && 0 <= j < (#[trigger] r@[i]).0@.len() ==> (#[trigger] r@[i].0@[j])@.len() > 0,
    {
        let mut out: Vec<TokensAndOffsets> = Vec::new();
        let n = inputs.len();
        for k in 0..n
            invariant
                n == inputs@.len(),
                out@.len() == k,
                forall|i: int|
                    0 <= i < k ==> (#[trigger] out@[i]).0.deep_view() == tokens_of(inputs@[i]@)
                        && out@[i].1@ == offsets_of(inputs@[i]@),
                forall|i: int, j: int|
                    0 <= i < k && 0 <= j < (#[trigger] out@[i]).0@.len() ==> (#[trigger] out@[i].0@[j])@.len() > 0,
        {
            let t = self.tokenize(inputs[k]);
            out.push(t);
        }
        out
    }
}

/// All sequences obtained from `item` by deleting exactly one token at a
/// position other than 0, in position order.
pub open spec fn deletions_of(item: Seq<Seq<char>>) -> Seq<Seq<Seq<char>>> {
    if item.len() == 0 {
        Seq::empty()
    } else {
        Seq::new((item.len() - 1) as nat, |t: int| item.remove(t + 1))
    }
}

/// One deletion round over a whole work list, in list order.
pub open spec fn deletions_all(items: Seq<Seq<Seq<char>>>) -> Seq<Seq<Seq<char>>>
    decreases items.len(),
{
    if items.len() == 0 {
        Seq::empty()
    } else {
        deletions_all(items.drop_last()) + deletions_of(items.last())
    }
}

pub open spec fn all_longer_than(items: Seq<Seq<Seq<char>>>, min: int) -> bool {
    forall|i: int| 0 <= i < items.len() ==> (#[trigger] items[i]).len() > min
}

/// The skip-gram work list: while budget remains and every item is longer
/// than the minimum, collect one more round of single deletions and recurse
/// on that round; otherwise the work list itself is the result.
pub open spec fn skip_grams_model(
    items: Seq<Seq<Seq<char>>>,
    max_skips: int,
    min_length: int,
) -> Seq<Seq<Seq<char>>>
    decreases (if max_skips > 0 { max_skips } else { 0 }),
{
    if max_skips > 0 && min_length >= 0 && all_longer_than(items, min_length) {
        let d = deletions_all(items);
        d + skip_grams_model(d, max_skips - 1, min_length)
    } else {
        items
    }
}

/// Every token of every key in the list is a non-empty string.
pub open spec fn keys_tokens_nonempty(ks: Seq<Seq<Seq<char>>>) -> bool {
    forall|i: int, j: int|
        0 <= i < ks.len() && 0 <= j < ks[i].len() ==> (#[trigger] ks[i][j]).len() > 0
}

proof fn lemma_deletions_all_tokens_nonempty(items: Seq<Seq<Seq<char>>>)
    requires
        keys_tokens_nonempty(items),
    ensures
        keys_tokens_nonempty(deletions_all(items)),
    decreases items.len(),
{
    if items.len() > 0 {
        assert(keys_tokens_nonempty(items.drop_last())) by {
            assert forall|i: int, j: int|
                0 <= i < items.drop_last().len() && 0 <= j < items.drop_last()[i].len() implies (
            #[trigger] items.drop_last()[i][j]).len() > 0 by {
                assert(items[i][j].len() > 0);
            }
        }
        lemma_deletions_all_tokens_nonempty(items.drop_last());
        let last = items.last();
        let d = deletions_of(last);
        assert(keys_tokens_nonempty(d)) by {
            assert forall|i: int, j: int|
                0 <= i < d.len() && 0 <= j < d[i].len() implies (#[trigger] d[i][j]).len() > 0 by {
                assert(d[i] == last.remove(i + 1));
                last.remove_ensures(i + 1);
                assert(items[items.len() - 1] == last);
                if j < i + 1 {
                    assert(d[i][j] == last[j]);
                    assert(last[j].len() > 0);
                } else {
                    assert(d[i][j] == last[j + 1]);
                    assert(last[j + 1].len() > 0);
                }
            }
        }
        let whole = deletions_all(items);
        assert(whole == deletions_all(items.drop_last()) + d);
        assert forall|i: int, j: int|
            0 <= i < whole.len() && 0 <= j < whole[i].len() implies (#[trigger] whole[i][j]).len()
            > 0 by {
            if i < deletions_all(items.drop_last()).len() {
                assert(whole[i] == deletions_all(items.drop_last())[i]);
            } else {
                assert(whole[i] == d[i - deletions_all(items.drop_last()).len()]);
            }
        }
    }
}

/// Skip-gram derivation never produces an empty token: every variant's
/// tokens are tokens of some source item.
pub proof fn lemma_skip_grams_tokens_nonempty(
    items: Seq<Seq<Seq<char>>>,
    max_skips: int,
    min_length: int,
)
    requires
        keys_tokens_nonempty(items),
    ensures
        keys_tokens_nonempty(skip_grams_model(items, max_skips, min_length)),
    decreases (if max_skips > 0 { max_skips } else { 0 }),
{
    if max_skips > 0 && min_length >= 0 && all_longer_than(items, min_length) {
        let d = deletions_all(items);
        lemma_deletions_all_tokens_nonempty(items);
        lemma_skip_grams_tokens_nonempty(d, max_skips - 1, min_length);
        let rest = skip_grams_model(d, max_skips - 1, min_length);
        let whole = skip_grams_model(items, max_skips, min_length);
        assert(whole == d + rest);
        assert forall|i: int, j: int|
            0 <= i < whole.len() && 0 <= j < whole[i].len() implies (#[trigger] whole[i][j]).len()
            > 0 by {
            if i < d.len() {
                assert(whole[i] == d[i]);
            } else {
                assert(whole[i] == rest[i - d.len()]);
            }
        }
    }
}

pub(crate) fn clone_string_vec(v: &Vec<String>) -> (r: Vec<String>)
    ensures
        r.deep_view() == v.deep_view(),
        r@.len() == v@.len(),
{
    let mut r: Vec<String> = Vec::new();
    let n = v.len();
    for i in 0..n
        invariant
            n == v@.len(),
            r@.len() == i,
            forall|k: int| 0 <= k < i ==> r.deep_view()[k] == v.deep_view()[k],
    {
        r.push(v[i].clone());
        proof {
            assert(r.deep_view()[i as int] == r@[i as int]@);
        }
    }
    proof {
        assert(r.deep_view() =~= v.deep_view());
    }
    r
}

fn clone_key_vec(v: &Vec<Vec<String>>) -> (r: Vec<Vec<String>>)
    ensures
        r.deep_view() == v.deep_view(),
{
    let mut r: Vec<Vec<String>> = Vec::new();
    let n = v.len();
    for i in 0..n
        invariant
            n == v@.len(),
            r@.len() == i,
            forall|k: int| 0 <= k < i ==> r.deep_view()[k] == v.deep_view()[k],
    {
        r.push(clone_string_vec(&v[i]));
        proof {
            assert(r.deep_view()[i as int] == r@[i as int].deep_view());
        }
    }
    proof {
        assert(r.deep_view() =~~= v.deep_view());
    }
    r
}

fn all_longer_exec(items: &Vec<Vec<String>>, min: usize) -> (r: bool)
    ensures
        r == all_longer_than(items.deep_view(), min as int),
{
    let n = items.len();
    for i in 0..n
        invariant
            n == items@.len(),
            forall|k: int| 0 <= k < i ==> (#[trigger] items.deep_view()[k]).len() > min,
    {
        proof {
            assert(items.deep_view()[i as int] == items@[i as int].deep_view());
        }
        if items[i].len() <= min {
            return false;
        }
    }
    true
}

/// Derive skip-gram variants: repeatedly delete one token at a position
/// other than 0 from every item, up to `max_skips` rounds, while the items
/// stay longer than `min_length`. With no budget, or items at or under the
/// minimum length, the work list is returned as it is.
pub fn create_skip_grams(items: &Vec<Vec<String>>, max_skips: i32, min_length: i32) -> (r: Vec<
    Vec<String>,
>)
    ensures
        r.deep_view() == skip_grams_model(items.deep_view(), max_skips as int, min_length as int),
    decreases (if max_skips > 0 { max_skips as int } else { 0 }),
{
    if max_skips > 0 && min_length >= 0 && all_longer_exec(items, min_length as usize) {
        let mut deleted: Vec<Vec<String>> = Vec::new();
        let n = items.len();
        for idx in 0..n
            invariant
                n == items@.len(),
                deleted.deep_view() == deletions_all(items.deep_view().subrange(0, idx as int)),
        {
            let item = &items[idx];
            let ghost cur = items.deep_view()[idx as int];
            proof {
                assert(cur == items@[idx as int].deep_view());
            }
            let l = item.len();
            let ghost pre = deleted.deep_view();
            for i in 1..(if l == 0 { 1 } else { l })
                invariant
                    l == item@.len(),
                    cur == item.deep_view(),
                    deleted.deep_view() == pre + deletions_of(cur).subrange(0, i - 1),
            {
                let mut d: Vec<String> = Vec::new();
                for j in 0..i
                    invariant
                        i < l,
                        l == item@.len(),
                        cur == item.deep_view(),
                        d@.len() == j,
                        forall|k: int| 0 <= k < j ==> d.deep_view()[k] == cur[k],
                {
                    d.push(item[j].clone());
                    proof {
                        assert(d.deep_view()[j as int] == d@[j as int]@);
                        assert(item.deep_view()[j as int] == item@[j as int]@);
                    }
                }
                for j in (i + 1)..l
                    invariant
                        i < l,
                        l == item@.len(),
                        cur == item.deep_view(),
                        d@.len() == j - 1,
                        forall|k: int| 0 <= k < i ==> d.deep_view()[k] == cur[k],
                        forall|k: int| i <= k < j - 1 ==> d.deep_view()[k] == cur[k + 1],
                {
                    let x = item[j].clone();
                    proof {
                        assert(item.deep_view()[j as int] == item@[j as int]@);
                        assert(x@ == cur[j as int]);
                    }
                    let ghost dbefore = d.deep_view();
                    d.push(x);
                    proof {
                        assert(d.deep_view() =~= dbefore.push(cur[j as int]));
                    }
                }
                let ghost dv = d.deep_view();
                proof {
                    assert(dv =~= cur.remove(i as int));
                    assert(deletions_of(cur)[i - 1] == cur.remove(i as int));
                }
                let ghost before = deleted.deep_view();
                deleted.push(d);
                proof {
                    assert(deleted.deep_view() =~= before.push(dv));
                    assert(deletions_of(cur).subrange(0, i as int) =~= deletions_of(
                        cur,
                    ).subrange(0, i - 1).push(deletions_of(cur)[i - 1]));
                    assert(deleted.deep_view() =~= pre + deletions_of(cur).subrange(0, i as int));
                }
            }
            proof {
                if l == 0 {
                    assert(deletions_of(cur) =~= Seq::<Seq<Seq<char>>>::empty());
                    assert(deleted.deep_view() =~= pre + deletions_of(cur));
                } else {
                    assert(deletions_of(cur).subrange(0, l - 1) =~= deletions_of(cur));
                }
                let prefix = items.deep_view().subrange(0, idx as int);
                let prefix1 = items.deep_view().subrange(0, idx + 1);
                assert(prefix1.drop_last() =~= prefix);
                assert(prefix1.last() == cur);
                assert(deleted.deep_view() =~= deletions_all(prefix1));
            }
        }
        proof {
            assert(items.deep_view().subrange(0, n as int) =~= items.deep_view());
        }
        let mut rest = create_skip_grams(&deleted, max_skips - 1, min_length);
        let ghost deleted_v = deleted.deep_view();
        let mut out = deleted;
        out.append(&mut rest);
        proof {
            assert(out.deep_view() =~= deleted_v + skip_grams_model(
                deleted_v,
                max_skips - 1,
                min_length as int,
            ));
        }
        out
    } else {
        clone_key_vec(items)
    }
}

/// The numeric value of a decimal digit sequence, most significant first.
pub open spec fn dec_value(s: Seq<char>) -> int
    decreases s.len(),
{
    if s.len() == 0 {
        0
    } else {
        dec_value(s.drop_last()) * 10 + (s.last() as u32 - 48)
    }
}

pub open spec fn all_digits(s: Seq<char>) -> bool {
    forall|i: int| 0 <= i < s.len() ==> 48 <= (#[trigger] s[i]) as u32 <= 57
}

/// What `str::parse::<usize>` accepts: an optional leading `+`, then one or
/// more decimal digits, denoting a value that fits in `usize`.
pub open spec fn parsed_usize(s: Seq<char>) -> Option<usize> {
    let body = if s.len() > 0 && s[0] == '+' {
        s.skip(1)
    } else {
        s
    };
    if body.len() > 0 && all_digits(body) && dec_value(body) <= usize::MAX as int {
        Some(dec_value(body) as usize)
    } else {
        None
    }
}

proof fn lemma_dec_value_nonneg(s: Seq<char>)
    requires
        all_digits(s),
    ensures
        dec_value(s) >= 0,
    decreases s.len(),
{
    if s.len() > 0 {
        assert(all_digits(s.drop_last())) by {
            assert(forall|i: int| 0 <= i < s.len() - 1 ==> s.drop_last()[i] == s[i]);
        }
        lemma_dec_value_nonneg(s.drop_last());
        assert(48 <= s[s.len() - 1] as u32);
    }
}

proof fn lemma_dec_value_grows(s: Seq<char>, i: int)
    requires
        all_digits(s),
        0 <= i <= s.len(),
    ensures
        dec_value(s) >= dec_value(s.subrange(0, i)),
    decreases s.len() - i,
{
    if i < s.len() {
        lemma_dec_value_grows(s, i + 1);
        let a = s.subrange(0, i);
        let b = s.subrange(0, i + 1);
        assert(b.drop_last() =~= a);
        assert(b.last() == s[i]);
        assert(all_digits(a)) by {
            assert(forall|j: int| 0 <= j < i ==> a[j] == s[j]);
        }
        lemma_dec_value_nonneg(a);
        assert(48 <= s[i] as u32 <= 57);
        assert(dec_value(b) == dec_value(a) * 10 + (s[i] as u32 - 48));
        assert(dec_value(a) * 10 >= dec_value(a));
    } else {
        assert(s.subrange(0, i) =~= s);
    }
}

fn parse_usize_digits(s: &str, from: usize) -> (r: Option<usize>)
    requires
        from <= s@.len(),
    ensures
        ({
            let body = s@.skip(from as int);
            r == (if body.len() > 0 && all_digits(body) && dec_value(body) <= usize::MAX as int {
                Some(dec_value(body) as usize)
            } else {
                None::<usize>
            })
        }),
{
    let n = s.unicode_len();
    if from == n {
        return None;
    }
    let mut acc: usize = 0;
    let mut i = from;
    proof {
        let body = s@.skip(from as int);
        assert(body.subrange(0, 0) =~= Seq::<char>::empty());
    }
    while i < n
        invariant
            from <= i <= n,
            n == s@.len(),
            all_digits(s@.skip(from as int).subrange(0, i - from)),
            acc as int == dec_value(s@.skip(from as int).subrange(0, i - from)),
        decreases n - i,
    {
        let c = s.get_char(i);
        let cu = c as u32;
        proof {
            assert(s@.skip(from as int)[i - from] == s@[i as int]);
        }
        if cu < 48 || cu > 57 {
            proof {
                assert(!all_digits(s@.skip(from as int))) by {
                    assert(s@.skip(from as int)[i - from] == c);
                }
            }
            return None;
        }
        let d = (cu - 48) as usize;
        let ghost body = s@.skip(from as int);
        let ghost pre = body.subrange(0, i - from);
        let ghost cur = body.subrange(0, i + 1 - from);
        proof {
            assert(cur.drop_last() =~= pre);
            assert(cur.last() == body[i - from]);
            assert(dec_value(cur) == acc as int * 10 + d);
            assert(all_digits(cur)) by {
                assert(forall|j: int| 0 <= j < cur.len() - 1 ==> cur[j] == pre[j]);
            }
        }
        let step = match acc.checked_mul(10) {
            Some(t) => t.checked_add(d),
            None => None,
        };
        match step {
            Some(next) => {
                acc = next;
            },
            None => {
                proof {
                    assert(dec_value(cur) > usize::MAX as int);
                    assert(all_digits(body) ==> dec_value(body) > usize::MAX as int) by {
                        if all_digits(body) {
                            lemma_dec_value_grows(body, i + 1 - from);
                        }
                    }
                }
                return None;
            },
        }
        i = i + 1;
    }
    proof {
        assert(s@.skip(from as int).subrange(0, n - from) =~= s@.skip(from as int));
    }
    Some(acc)
}

/// Parse an optional string as an unsigned size, as `str::parse` would:
/// `None`, a malformed number, or one too large for `usize` all yield `None`.
pub fn parse_optional(string: &Option<String>) -> (r: Option<usize>)
    ensures
        r == (match string {
            Some(s) => parsed_usize(s@),
            None => None::<usize>,
        }),
{
    match string {
        None => None,
        Some(s) => {
            let n = s.as_str().unicode_len();
            if n > 0 && s.as_str().get_char(0) == '+' {
                parse_usize_digits(s.as_str(), 1)
            } else {
                let r = parse_usize_digits(s.as_str(), 0);
                proof {
                    assert(s@.skip(0) =~= s@);
                }
                r
            }
        },
    }
}

/// The characters on which `split_with_indices` splits.
pub open spec fn is_split_char(c: char) -> bool {
    c == ' ' || c == '.' || c == ',' || c == ':' || c == ';' || c == '-' || c == '_' || c == '"'
        || c == '(' || c == ')'
}

/// Whether a slice survives the splitter's filter: longer than one
/// character, or a single character that is not itself a split character.
pub open spec fn keep_slice(sl: Seq<char>) -> bool {
    sl.len() > 1 || (sl.len() == 1 && !is_split_char(sl[0]))
}

/// The remaining output of the splitter from position `i`, with the current
/// slice starting at `last`: slices between split characters, each recorded
/// with the offset pair `(start, end + 1)`.
pub open spec fn split_rest(s: Seq<char>, i: int, last: int) -> (Seq<Seq<char>>, Seq<(int, int)>)
    decreases s.len() - i,
{
    if i < 0 || i >= s.len() {
        if last < s.len() {
            let sl = s.subrange(last, s.len() as int);
            if keep_slice(sl) {
                (seq![sl], seq![(last, s.len() as int + 1)])
            } else {
                (Seq::empty(), Seq::empty())
            }
        } else {
            (Seq::empty(), Seq::empty())
        }
    } else if is_split_char(s[i]) {
        let rest = split_rest(s, i + 1, i + 1);
        let sl = s.subrange(last, i);
        if keep_slice(sl) {
            (seq![sl] + rest.0, seq![(last, i + 1)] + rest.1)
        } else {
            rest
        }
    } else {
        split_rest(s, i + 1, last)
    }
}

/// Split a string on the fixed split characters, dropping one-character
/// slices that are themselves split characters, and report each kept
/// slice's character offsets as `(start, end + 1)`.
pub fn split_with_indices(s: &str) -> (r: (Vec<String>, Vec<(usize, usize)>))
    requires
        s@.len() < usize::MAX,
    ensures
        r.0.deep_view() == split_rest(s@, 0, 0).0,
        r.1@.len() == split_rest(s@, 0, 0).1.len(),
        forall|j: int|
            0 <= j < r.1@.len() ==> ((#[trigger] r.1@[j]).0 as int, r.1@[j].1 as int)
                == split_rest(s@, 0, 0).1[j],
    {
    let n = s.unicode_len();
    let mut slices: Vec<String> = Vec::new();
    let mut offsets: Vec<(usize, usize)> = Vec::new();
    let mut last: usize = 0;
    let mut i: usize = 0;
    while i < n
        invariant
            n == s@.len(),
            n < usize::MAX,
            last <= i <= n,
            slices.deep_view() + split_rest(s@, i as int, last as int).0 == split_rest(s@, 0, 0).0,
            offsets@.len() + split_rest(s@, i as int, last as int).1.len() == split_rest(
                s@,
                0,
                0,
            ).1.len(),
            forall|j: int|
                0 <= j < offsets@.len() ==> ((#[trigger] offsets@[j]).0 as int, offsets@[j].1
                    as int) == split_rest(s@, 0, 0).1[j],
            forall|j: int|
                0 <= j < split_rest(s@, i as int, last as int).1.len() ==> #[trigger] split_rest(
                    s@,
                    i as int,
                    last as int,
                ).1[j] == split_rest(s@, 0, 0).1[offsets@.len() + j],
        decreases n - i,
    {
        let c = s.get_char(i);
        let split_here = c == ' ' || c == '.' || c == ',' || c == ':' || c == ';' || c == '-' || c
            == '_' || c == '"' || c == '(' || c == ')';
        if split_here {
            let sl = s.substring_char(last, i);
            let keep = if i - last > 1 {
                true
            } else if i - last == 1 {
                let c0 = s.get_char(last);
                !(c0 == ' ' || c0 == '.' || c0 == ',' || c0 == ':' || c0 == ';' || c0 == '-' || c0
                    == '_' || c0 == '"' || c0 == '(' || c0 == ')')
            } else {
                false
            };
            proof {
                assert(sl@ == s@.subrange(last as int, i as int));
                if i - last == 1 {
                    assert(sl@[0] == s@[last as int]);
                }
                assert(keep == keep_slice(sl@));
            }
            let ghost all0 = split_rest(s@, 0, 0);
            let ghost cur = split_rest(s@, i as int, last as int);
            let ghost rest = split_rest(s@, i + 1, i + 1);
            if keep {
                let ghost before_s = slices.deep_view();
                let ghost before_o = offsets@;
                slices.push(String::from_str(sl));
                offsets.push((last, i + 1));
                proof {
                    assert(cur.0 == seq![s@.subrange(last as int, i as int)] + rest.0);
                    assert(cur.1 == seq![(last as int, i as int + 1)] + rest.1);
                    assert(slices.deep_view() =~= before_s.push(s@.subrange(
                        last as int,
                        i as int,
                    )));
                    assert(slices.deep_view() + rest.0 =~= all0.0);
                    assert(cur.1[0] == all0.1[before_o.len() as int]);
                    assert forall|j: int|
                        0 <= j < offsets@.len() implies ((#[trigger] offsets@[j]).0 as int,
                    offsets@[j].1 as int) == all0.1[j] by {
                        if j < before_o.len() {
                            assert(offsets@[j] == before_o[j]);
                        } else {
                            assert(offsets@[j] == (last, (i + 1) as usize));
                        }
                    }
                    assert forall|j: int|
                        0 <= j < rest.1.len() implies #[trigger] rest.1[j] == all0.1[
                        offsets@.len() + j] by {
                        assert(cur.1[j + 1] == rest.1[j]);
                        assert(cur.1[j + 1] == all0.1[before_o.len() + j + 1]);
                    }
                }
            } else {
                proof {
                    assert(cur.0 == rest.0);
                    assert(cur.1 == rest.1);
                }
            }
            last = i + 1;
        }
        i = i + 1;
    }
    if last < n {
        let sl = s.substring_char(last, n);
        let keep = if n - last > 1 {
            true
        } else {
            let c0 = s.get_char(last);
            !(c0 == ' ' || c0 == '.' || c0 == ',' || c0 == ':' || c0 == ';' || c0 == '-' || c0
                == '_' || c0 == '"' || c0 == '(' || c0 == ')')
        };
        proof {
            assert(sl@ == s@.subrange(last as int, n as int));
            if n - last == 1 {
                assert(sl@[0] == s@[last as int]);
            }
            assert(keep == keep_slice(sl@));
        }
        let ghost all0 = split_rest(s@, 0, 0);
        let ghost cur = split_rest(s@, n as int, last as int);
        if keep {
            let ghost before_s = slices.deep_view();
            let ghost before_o = offsets@;
            slices.push(String::from_str(sl));
            offsets.push((last, n + 1));
            proof {
                assert(cur.0 == seq![s@.subrange(last as int, n as int)]);
                assert(cur.1 == seq![(last as int, n as int + 1)]);
                assert(slices.deep_view() =~= before_s.push(s@.subrange(last as int, n as int)));
                assert(cur.1[0] == all0.1[before_o.len() as int]);
                assert forall|j: int|
                    0 <= j < offsets@.len() implies ((#[trigger] offsets@[j]).0 as int,
                offsets@[j].1 as int) == all0.1[j] by {
                    if j < before_o.len() {
                        assert(offsets@[j] == before_o[j]);
                    } else {
                        assert(offsets@[j] == (last, (n + 1) as usize));
                    }
                }
            }
        }
    }
    proof {
        assert(slices.deep_view() =~= split_rest(s@, 0, 0).0);
    }
    (slices, offsets)
}

/// Errors of corpus configuration and row parsing.
#[derive(Debug, Clone, Copy, PartialEq, Eq, Structural)]
pub enum CorpusError {
    ConfigError,
    ParseError,
}

impl CorpusError {
    pub fn message(&self) -> (r: String)
        ensures
            *self == CorpusError::ConfigError ==> r@ == "invalid corpus format"@,
            *self == CorpusError::ParseError ==> r@ == "could not parse corpus row"@,
    {
        match self {
            CorpusError::ConfigError => String::from_str("invalid corpus format"),
            CorpusError::ParseError => String::from_str("could not parse corpus row"),
        }
    }
}

/// The dialect of a corpus file, every option left open.
pub struct CorpusFormat {
    pub comment: Option<String>,
    pub delimiter: Option<String>,
    pub double_quote: Option<bool>,
    pub flexible: Option<bool>,
    pub has_header: Option<bool>,
    pub quote: Option<String>,
    pub quoting: Option<bool>,
    pub skip_lines: Option<usize>,
    pub search_term_column_idx: Option<usize>,
    pub label_column_idx: Option<usize>,
    pub label_format_string: Option<String>,
    pub label_format_pattern: Option<String>,
}

impl Default for CorpusFormat {
    fn default() -> (r: CorpusFormat)
        ensures
            r.comment is None,
            r.delimiter is None,
            r.double_quote is None,
            r.flexible is None,
            r.has_header is None,
            r.quote is None,
            r.quoting is None,
            r.skip_lines is None,
            r.search_term_column_idx is None,
            r.label_column_idx is None,
            r.label_format_string is None,
            r.label_format_pattern is None,
    {
        CorpusFormat {
            comment: None,
            delimiter: None,
            double_quote: None,
            flexible: None,
            has_header: None,
            quote: None,
            quoting: None,
            skip_lines: None,
            search_term_column_idx: None,
            label_column_idx: None,
            label_format_string: None,
            label_format_pattern: None,
        }
    }
}

/// The mathematical value of a `CorpusFormat`.
pub struct CorpusFormatV {
    pub comment: Option<Seq<char>>,
    pub delimiter: Option<Seq<char>>,
    pub double_quote: Option<bool>,
    pub flexible: Option<bool>,
    pub has_header: Option<bool>,
    pub quote: Option<Seq<char>>,
    pub quoting: Option<bool>,
    pub skip_lines: Option<usize>,
    pub search_term_column_idx: Option<usize>,
    pub label_column_idx: Option<usize>,
    pub label_format_string: Option<Seq<char>>,
    pub label_format_pattern: Option<Seq<char>>,
}

impl View for CorpusFormat {
    type V = CorpusFormatV;

    open spec fn view(&self) -> CorpusFormatV {
        CorpusFormatV {
            comment: self.comment.deep_view(),
            delimiter: self.delimiter.deep_view(),
            double_quote: self.double_quote,
            flexible: self.flexible,
            has_header: self.has_header,
            quote: self.quote.deep_view(),
            quoting: self.quoting,
            skip_lines: self.skip_lines,
            search_term_column_idx: self.search_term_column_idx,
            label_column_idx: self.label_column_idx,
            label_format_string: self.label_format_string.deep_view(),
            label_format_pattern: self.label_format_pattern.deep_view(),
        }
    }
}

/// The resolved dialect: every option settled to a concrete value.
pub struct RobustCorpusFormat {
    pub comment: Option<u8>,
    pub delimiter: u8,
    pub double_quote: bool,
    pub flexible: bool,
    pub has_header: bool,
    pub quote: u8,
    pub quoting: bool,
    pub skip_lines: usize,
    pub search_term_column_idx: usize,
    pub label_column_idx: usize,
    pub label_format_string: Option<String>,
    pub label_format_pattern: String,
}

/// The mathematical value of a `RobustCorpusFormat`.
pub struct RobustCorpusFormatV {
    pub comment: Option<u8>,
    pub delimiter: u8,
    pub double_quote: bool,
    pub flexible: bool,
    pub has_header: bool,
    pub quote: u8,
    pub quoting: bool,
    pub skip_lines: usize,
    pub search_term_column_idx: usize,
    pub label_column_idx: usize,
    pub label_format_string: Option<Seq<char>>,
    pub label_format_pattern: Seq<char>,
}

impl View for RobustCorpusFormat {
    type V = RobustCorpusFormatV;

    open spec fn view(&self) -> RobustCorpusFormatV {
        RobustCorpusFormatV {
            comment: self.comment,
            delimiter: self.delimiter,
            double_quote: self.double_quote,
            flexible: self.flexible,
            has_header: self.has_header,
            quote: self.quote,
            quoting: self.quoting,
            skip_lines: self.skip_lines,
            search_term_column_idx: self.search_term_column_idx,
            label_column_idx: self.label_column_idx,
            label_format_string: self.label_format_string.deep_view(),
            label_format_pattern: self.label_format_pattern@,
        }
    }
}

impl Default for RobustCorpusFormat {
    fn default() -> (r: RobustCorpusFormat)
        ensures
            r.comment == Some(35u8),
            r.delimiter == 9u8,
            !r.double_quote,
            !r.flexible,
            !r.has_header,
            r.quote == 34u8,
            r.quoting,
            r.skip_lines == 0usize,
            r.search_term_column_idx == 0usize,
            r.label_column_idx == 1usize,
            r.label_format_string is None,
            r.label_format_pattern@ == "{}"@,
    {
        RobustCorpusFormat {
            comment: Some(35),
            delimiter: 9,
            double_quote: false,
            flexible: false,
            has_header: false,
            quote: 34,
            quoting: true,
            skip_lines: 0,
            search_term_column_idx: 0,
            label_column_idx: 1,
            label_format_string: None,
            label_format_pattern: String::from_str("{}"),
        }
    }
}

/// A one-character ASCII string as its byte; anything else is refused.
pub open spec fn ascii_byte_of(s: Seq<char>) -> Option<u8> {
    if s.len() == 1 && (s[0] as u32) < 128 {
        Some((s[0] as u32) as u8)
    } else {
        None
    }
}

/// `pat` occurs as a contiguous part of `hay`.
pub open spec fn contains_sub(hay: Seq<char>, pat: Seq<char>) -> bool {
    exists|i: int|
        0 <= i <= hay.len() - pat.len() && #[trigger] hay.subrange(i, i + pat.len()) == pat
}

/// How a raw format resolves: defaults filled in, the comment, delimiter
/// and quote settled to single bytes, and the label template checked to be
/// a non-empty pattern contained in its format string. `None` is a
/// configuration error.
pub open spec fn robust_format_of(f: CorpusFormatV) -> Option<RobustCorpusFormatV> {
    let comment = match f.comment {
        None => Some(Some(35u8)),
        Some(s) => if s.len() == 0 {
            Some(None::<u8>)
        } else {
            match ascii_byte_of(s) {
                Some(b) => Some(Some(b)),
                None => None,
            }
        },
    };
    let delimiter = match f.delimiter {
        None => Some(9u8),
        Some(s) => ascii_byte_of(s),
    };
    let quote = match f.quote {
        None => Some(34u8),
        Some(s) => ascii_byte_of(s),
    };
    let pattern = match f.label_format_pattern {
        None => "{}"@,
        Some(s) => s,
    };
    if comment is None || delimiter is None || quote is None || pattern.len() == 0 || (
    match f.label_format_string {
        Some(fs) => !contains_sub(fs, pattern),
        None => false,
    }) {
        None
    } else {
        Some(
            RobustCorpusFormatV {
                comment: comment->Some_0,
                delimiter: delimiter->Some_0,
                double_quote: match f.double_quote {
                    Some(b) => b,
                    None => false,
                },
                flexible: match f.flexible {
                    Some(b) => b,
                    None => false,
                },
                has_header: match f.has_header {
                    Some(b) => b,
                    None => false,
                },
                quote: quote->Some_0,
                quoting: match f.quoting {
                    Some(b) => b,
                    None => true,
                },
                skip_lines: match f.skip_lines {
                    Some(v) => v,
                    None => 0usize,
                },
                search_term_column_idx: match f.search_term_column_idx {
                    Some(v) => v,
                    None => 0usize,
                },
                label_column_idx: match f.label_column_idx {
                    Some(v) => v,
                    None => 1usize,
                },
                label_format_string: f.label_format_string,
                label_format_pattern: pattern,
            },
        )
    }
}

fn matches_at(hay: &str, pat: &str, i: usize) -> (r: bool)
    requires
        i + pat@.len() <= hay@.len(),
    ensures
        r == (hay@.subrange(i as int, i + pat@.len()) == pat@),
{
    let m = pat.unicode_len();
    let hn = hay.unicode_len();
    for t in 0..m
        invariant
            m == pat@.len(),
            hn == hay@.len(),
            i + m <= hn,
            forall|k: int| 0 <= k < t ==> hay@[i + k] == pat@[k],
    {
        if hay.get_char(i + t) != pat.get_char(t) {
            proof {
                assert(hay@.subrange(i as int, i + pat@.len())[t as int] != pat@[t as int]);
            }
            return false;
        }
    }
    proof {
        assert(hay@.subrange(i as int, i + pat@.len()) =~= pat@);
    }
    true
}

fn contains_str(hay: &str, pat: &str) -> (r: bool)
    ensures
        r == contains_sub(hay@, pat@),
{
    let n = hay.unicode_len();
    let m = pat.unicode_len();
    if m > n {
        proof {
            if contains_sub(hay@, pat@) {
                let i = choose|i: int|
                    0 <= i <= hay@.len() - pat@.len() && #[trigger] hay@.subrange(i, i + pat@.len())
                        == pat@;
            }
        }
        return false;
    }
    if m == 0 {
        proof {
            assert(hay@.subrange(0, 0 + pat@.len() as int) =~= pat@);
        }
        return true;
    }
    for i in 0..(n - m + 1)
        invariant
            n == hay@.len(),
            m == pat@.len(),
            m <= n,
            forall|k: int| 0 <= k < i ==> #[trigger] hay@.subrange(k, k + pat@.len()) != pat@,
    {
        if matches_at(hay, pat, i) {
            return true;
        }
    }
    proof {
        if contains_sub(hay@, pat@) {
            let i = choose|i: int|
                0 <= i <= hay@.len() - pat@.len() && #[trigger] hay@.subrange(i, i + pat@.len())
                    == pat@;
            assert(hay@.subrange(i, i + pat@.len()) != pat@);
        }
    }
    false
}

impl RobustCorpusFormat {
    /// Resolve a raw format, refusing a comment, delimiter or quote that is
    /// not a single ASCII character and a label template whose pattern is
    /// empty or absent from the format string.
    pub fn try_from(format: &CorpusFormat) -> (r: Result<RobustCorpusFormat, CorpusError>)
        ensures
            match r {
                Ok(rf) => robust_format_of(format@) == Some(rf@),
                Err(e) => robust_format_of(format@) is None && e == CorpusError::ConfigError,
            },
    {
        let comment: Option<u8> = match &format.comment {
            None => Some(35),
            Some(s) => {
                let n = s.as_str().unicode_len();
                if n == 0 {
                    None
                } else if n == 1 {
                    let cu = s.as_str().get_char(0) as u32;
                    if cu < 128 {
                        Some(cu as u8)
                    } else {
                        return Err(CorpusError::ConfigError);
                    }
                } else {
                    return Err(CorpusError::ConfigError);
                }
            },
        };
        let delimiter: u8 = match &format.delimiter {
            None => 9,
            Some(s) => {
                let n = s.as_str().unicode_len();
                if n == 1 {
                    let cu = s.as_str().get_char(0) as u32;
                    if cu < 128 {
                        cu as u8
                    } else {
                        return Err(CorpusError::ConfigError);
                    }
                } else {
                    return Err(CorpusError::ConfigError);
                }
            },
        };
        let quote: u8 = match &format.quote {
            None => 34,
            Some(s) => {
                let n = s.as_str().unicode_len();
                if n == 1 {
                    let cu = s.as_str().get_char(0) as u32;
                    if cu < 128 {
                        cu as u8
                    } else {
                        return Err(CorpusError::ConfigError);
                    }
                } else {
                    return Err(CorpusError::ConfigError);
                }
            },
        };
        let pattern: String = match &format.label_format_pattern {
            None => String::from_str("{}"),
            Some(s) => s.clone(),
        };
        if pattern.as_str().unicode_len() == 0 {
            return Err(CorpusError::ConfigError);
        }
        let label_format_string: Option<String> = match &format.label_format_string {
            None => None,
            Some(fs) => {
                if !contains_str(fs.as_str(), pattern.as_str()) {
                    return Err(CorpusError::ConfigError);
                }
                Some(fs.clone())
            },
        };
        Ok(
            RobustCorpusFormat {
                comment,
                delimiter,
                double_quote: match format.double_quote {
                    Some(b) => b,
                    None => false,
                },
                flexible: match format.flexible {
                    Some(b) => b,
                    None => false,
                },
                has_header: match format.has_header {
                    Some(b) => b,
                    None => false,
                },
                quote,
                quoting: match format.quoting {
                    Some(b) => b,
                    None => true,
                },
                skip_lines: match format.skip_lines {
                    Some(v) => v,
                    None => 0,
                },
                search_term_column_idx: match format.search_term_column_idx {
                    Some(v) => v,
                    None => 0,
                },
                label_column_idx: match format.label_column_idx {
                    Some(v) => v,
                    None => 1,
                },
                label_format_string,
                label_format_pattern: pattern,
            },
        )
    }
}

/// Every occurrence of `from` in `s`, leftmost first and without overlap,
/// replaced by `to`; the empty pattern replaces nothing.
pub open spec fn replace_all(s: Seq<char>, from: Seq<char>, to: Seq<char>) -> Seq<char>
    decreases s.len(),
{
    if from.len() == 0 {
        s
    } else if s.len() < from.len() {
        s
    } else if s.subrange(0, from.len() as int) == from {
        to + replace_all(s.skip(from.len() as int), from, to)
    } else {
        seq![s[0]] + replace_all(s.skip(1), from, to)
    }
}

fn replace_str(s: &str, from: &str, to: &str) -> (r: String)
    requires
        from@.len() > 0,
    ensures
        r@ == replace_all(s@, from@, to@),
{
    let n = s.unicode_len();
    let flen = from.unicode_len();
    let mut out = String::new();
    let mut i: usize = 0;
    proof {
        assert(s@.skip(0) =~= s@);
    }
    while i < n
        invariant
            n == s@.len(),
            flen == from@.len(),
            flen > 0,
            i <= n,
            out@ + replace_all(s@.skip(i as int), from@, to@) == replace_all(s@, from@, to@),
        decreases n - i,
    {
        let ghost rem = s@.skip(i as int);
        if flen <= n - i && matches_at(s, from, i) {
            proof {
                assert(rem.subrange(0, from@.len() as int) =~= s@.subrange(i as int, i + flen));
                assert(rem.skip(from@.len() as int) =~= s@.skip(i + flen));
            }
            out.append(to);
            i = i + flen;
        } else {
            proof {
                if rem.len() >= from@.len() {
                    if i + flen <= n {
                        assert(rem.subrange(0, from@.len() as int) =~= s@.subrange(
                            i as int,
                            i + flen,
                        ));
                        assert(rem.subrange(0, from@.len() as int) != from@);
                    }
                    assert(rem.skip(1) =~= s@.skip(i + 1));
                    assert(replace_all(rem, from@, to@) == seq![rem[0]] + replace_all(
                        s@.skip(i + 1),
                        from@,
                        to@,
                    ));
                } else {
                    assert(replace_all(rem, from@, to@) == rem);
                    assert(s@.skip(i + 1) =~= rem.skip(1));
                    assert(replace_all(s@.skip(i + 1), from@, to@) == s@.skip(i + 1)) by {
                        assert(s@.skip(i + 1).len() < from@.len());
                    }
                    assert(rem =~= seq![rem[0]] + rem.skip(1));
                }
                assert(rem[0] == s@[i as int]);
            }
            let c = s.substring_char(i, i + 1);
            proof {
                assert(c@ =~= seq![s@[i as int]]);
            }
            out.append(c);
            proof {
                assert(out@ + replace_all(s@.skip(i + 1), from@, to@) =~= replace_all(
                    s@,
                    from@,
                    to@,
                ));
            }
            i = i + 1;
        }
    }
    proof {
        assert(s@.skip(n as int).len() == 0);
        assert(replace_all(s@.skip(n as int), from@, to@) == s@.skip(n as int));
        assert(out@ =~= replace_all(s@, from@, to@));
    }
    out
}

/// What the csv reader yields for a document under a dialect: the field
/// rows of its records, or nothing when any record is rejected. The result
/// is a function of the document and the dialect alone.
pub uninterp spec fn csv_rows_of(
    content: Seq<char>,
    comment: Option<u8>,
    delimiter: u8,
    double_quote: bool,
    flexible: bool,
    has_header: bool,
    quote: u8,
    quoting: bool,
) -> Option<Seq<Seq<Seq<char>>>>;

/// Relies on csv's `ReaderBuilder` and `StringRecord`: reads every record
/// of the document under the given dialect with whitespace trimmed, one
/// list of fields per record; a record the reader rejects makes the whole
/// read fail.
#[verifier::external_body]
fn read_csv_records(
    content: &str,
    comment: Option<u8>,
    delimiter: u8,
    double_quote: bool,
    flexible: bool,
    has_header: bool,
    quote: u8,
    quoting: bool,
) -> (r: Option<Vec<Vec<String>>>)
    ensures
        match r {
            Some(rows) => csv_rows_of(
                content@,
                comment,
                delimiter,
                double_quote,
                flexible,
                has_header,
                quote,
                quoting,
            ) == Some(rows.deep_view()),
            None => csv_rows_of(
                content@,
                comment,
                delimiter,
                double_quote,
                flexible,
                has_header,
                quote,
                quoting,
            ) is None,
        },
{
    let reader = csv::ReaderBuilder::new().comment(comment).delimiter(delimiter).double_quote(
        double_quote,
    ).flexible(flexible).has_headers(has_header).quote(quote).quoting(quoting).trim(
        csv::Trim::All,
    ).from_reader(content.as_bytes());
    let mut out: Vec<Vec<String>> = Vec::new();
    for record in reader.into_records() {
        match record {
            Ok(row) => out.push(row.iter().map(String::from).collect()),
            Err(_) => {
                return None;
            },
        }
    }
    Some(out)
}

/// The position just after skipping up to `k` line breaks from position `i`.
pub open spec fn skip_pos(s: Seq<char>, i: int, k: int) -> int
    decreases s.len() - i,
{
    if i < 0 || i >= s.len() || k <= 0 {
        i
    } else if s[i] == '\n' {
        skip_pos(s, i + 1, k - 1)
    } else {
        skip_pos(s, i + 1, k)
    }
}

fn skip_lines_offset(s: &str, k: usize) -> (r: usize)
    ensures
        r as int == skip_pos(s@, 0, k as int),
        r <= s@.len(),
{
    let n = s.unicode_len();
    let mut i: usize = 0;
    let mut remaining = k;
    while i < n && remaining > 0
        invariant
            n == s@.len(),
            i <= n,
            skip_pos(s@, 0, k as int) == skip_pos(s@, i as int, remaining as int),
        decreases n - i,
    {
        let c = s.get_char(i);
        if c == '\n' {
            remaining = remaining - 1;
        }
        i = i + 1;
    }
    i
}

/// The `(search term, label)` pair of one row, the label shaped by the
/// optional template; `None` when the configured columns are missing.
pub open spec fn row_pair(
    row: Seq<Seq<char>>,
    st_idx: int,
    l_idx: int,
    fs: Option<Seq<char>>,
    pat: Seq<char>,
) -> Option<(Seq<char>, Seq<char>)> {
    if st_idx < row.len() && l_idx < row.len() {
        let label = match fs {
            None => row[l_idx],
            Some(f) => replace_all(f, pat, row[l_idx]),
        };
        Some((row[st_idx], label))
    } else {
        None
    }
}

/// The pairs of all non-empty rows, in order; `None` as soon as one row
/// cannot be mapped.
pub open spec fn rows_pairs(
    rows: Seq<Seq<Seq<char>>>,
    st_idx: int,
    l_idx: int,
    fs: Option<Seq<char>>,
    pat: Seq<char>,
) -> Option<Seq<(Seq<char>, Seq<char>)>>
    decreases rows.len(),
{
    if rows.len() == 0 {
        Some(Seq::empty())
    } else {
        match rows_pairs(rows.drop_last(), st_idx, l_idx, fs, pat) {
            None => None,
            Some(front) => if rows.last().len() == 0 {
                Some(front)
            } else {
                match row_pair(rows.last(), st_idx, l_idx, fs, pat) {
                    None => None,
                    Some(p) => Some(front.push(p)),
                }
            },
        }
    }
}

proof fn lemma_rows_pairs_none(
    rows: Seq<Seq<Seq<char>>>,
    st_idx: int,
    l_idx: int,
    fs: Option<Seq<char>>,
    pat: Seq<char>,
    j: int,
)
    requires
        0 <= j <= rows.len(),
        rows_pairs(rows.subrange(0, j), st_idx, l_idx, fs, pat) is None,
    ensures
        rows_pairs(rows, st_idx, l_idx, fs, pat) is None,
    decreases rows.len() - j,
{
    if j < rows.len() {
        assert(rows.subrange(0, j + 1).drop_last() =~= rows.subrange(0, j));
        lemma_rows_pairs_none(rows, st_idx, l_idx, fs, pat, j + 1);
    } else {
        assert(rows.subrange(0, j) =~= rows);
    }
}

/// Parse a corpus document: resolve the dialect, skip the configured
/// leading lines, read the delimiter-separated records, and map every
/// non-empty row to its `(search term, label)` pair, the label shaped by
/// the optional template. A bad dialect is a configuration error; a
/// rejected record or a row without the configured columns is a parse
/// error.
pub fn parse_corpus(content: &str, format: &CorpusFormat) -> (r: Result<
    Vec<(String, String)>,
    CorpusError,
>)
    ensures
        match robust_format_of(format@) {
            None => r == Err::<Vec<(String, String)>, CorpusError>(CorpusError::ConfigError),
            Some(rf) => {
                let rest = content@.skip(skip_pos(content@, 0, rf.skip_lines as int));
                match csv_rows_of(
                    rest,
                    rf.comment,
                    rf.delimiter,
                    rf.double_quote,
                    rf.flexible,
                    rf.has_header,
                    rf.quote,
                    rf.quoting,
                ) {
                    None => r == Err::<Vec<(String, String)>, CorpusError>(CorpusError::ParseError),
                    Some(rows) => match rows_pairs(
                        rows,
                        rf.search_term_column_idx as int,
                        rf.label_column_idx as int,
                        rf.label_format_string,
                        rf.label_format_pattern,
                    ) {
                        None => r == Err::<Vec<(String, String)>, CorpusError>(
                            CorpusError::ParseError,
                        ),
                        Some(pairs) => r is Ok && (r->Ok_0).deep_view() == pairs,
                    },
                }
            },
        },
{
    let rf = match RobustCorpusFormat::try_from(format) {
        Ok(rf) => rf,
        Err(e) => {
            return Err(e);
        },
    };
    let start = skip_lines_offset(content, rf.skip_lines);
    let rest = content.substring_char(start, content.unicode_len());
    let rows = match read_csv_records(
        rest,
        rf.comment,
        rf.delimiter,
        rf.double_quote,
        rf.flexible,
        rf.has_header,
        rf.quote,
        rf.quoting,
    ) {
        Some(rows) => rows,
        None => {
            return Err(CorpusError::ParseError);
        },
    };
    let ghost rowsv = rows.deep_view();
    let ghost st_idx = rf.search_term_column_idx as int;
    let ghost l_idx = rf.label_column_idx as int;
    let ghost fsv = rf@.label_format_string;
    let ghost patv = rf@.label_format_pattern;
    let mut out: Vec<(String, String)> = Vec::new();
    proof {
        assert(rowsv.subrange(0, 0) =~= Seq::<Seq<Seq<char>>>::empty());
        assert(rest@ =~= content@.skip(skip_pos(content@, 0, rf@.skip_lines as int)));
    }
    let m = rows.len();
    for t in 0..m
        invariant
            m == rows@.len(),
            rowsv == rows.deep_view(),
            rowsv.len() == m,
            st_idx == rf.search_term_column_idx as int,
            l_idx == rf.label_column_idx as int,
            fsv == rf@.label_format_string,
            patv == rf@.label_format_pattern,
            patv.len() > 0,
            robust_format_of(format@) == Some(rf@),
            csv_rows_of(
                content@.skip(skip_pos(content@, 0, rf@.skip_lines as int)),
                rf@.comment,
                rf@.delimiter,
                rf@.double_quote,
                rf@.flexible,
                rf@.has_header,
                rf@.quote,
                rf@.quoting,
            ) == Some(rowsv),
            rows_pairs(rowsv.subrange(0, t as int), st_idx, l_idx, fsv, patv) == Some(
                out.deep_view(),
            ),
    {
        proof {
            assert(rows.deep_view()[t as int] == rows@[t as int].deep_view());
            assert(rowsv.subrange(0, t + 1).drop_last() =~= rowsv.subrange(0, t as int));
            assert(rowsv.subrange(0, t + 1).last() == rowsv[t as int]);
        }
        let row = &rows[t];
        if row.len() > 0 {
            if rf.search_term_column_idx >= row.len() || rf.label_column_idx >= row.len() {
                proof {
                    assert(row_pair(rowsv[t as int], st_idx, l_idx, fsv, patv) is None);
                    assert(rows_pairs(rowsv.subrange(0, t + 1), st_idx, l_idx, fsv, patv) is None);
                    lemma_rows_pairs_none(rowsv, st_idx, l_idx, fsv, patv, t + 1);
                }
                return Err(CorpusError::ParseError);
            }
            let term = row[rf.search_term_column_idx].clone();
            let label = match &rf.label_format_string {
                None => row[rf.label_column_idx].clone(),
                Some(f) => replace_str(
                    f.as_str(),
                    rf.label_format_pattern.as_str(),
                    row[rf.label_column_idx].as_str(),
                ),
            };
            let ghost before = out.deep_view();
            proof {
                assert(rowsv[t as int][st_idx] == row@[st_idx]@);
                assert(rowsv[t as int][l_idx] == row@[l_idx]@);
            }
            out.push((term, label));
            proof {
                assert(out.deep_view() =~= before.push(
                    (row_pair(rowsv[t as int], st_idx, l_idx, fsv, patv))->Some_0,
                ));
            }
        }
    }
    proof {
        assert(rowsv.subrange(0, m as int) =~= rowsv);
    }
    Ok(out)
}

/// What `str::to_lowercase` returns: a function of the characters alone.
pub uninterp spec fn lower_of(s: Seq<char>) -> Seq<char>;

/// Relies on `str::to_lowercase`: the result depends on the characters alone.
#[verifier::external_body]
fn lowercase(s: &str) -> (r: String)
    ensures
        r@ == lower_of(s@),
{
    s.to_lowercase()
}

/// The filter list, lower-cased element by element.
pub open spec fn lowered(l: Seq<Seq<char>>) -> Seq<Seq<char>> {
    l.map_values(|x: Seq<char>| lower_of(x))
}

/// The entries that survive a filter list: those whose lower-cased search
/// term is not among the lower-cased list entries.
pub open spec fn kept_by_filter(filt: Seq<Seq<char>>) -> spec_fn((Seq<char>, Seq<char>)) -> bool {
    |e: (Seq<char>, Seq<char>)| !lowered(filt).contains(lower_of(e.0))
}

fn contains_string(v: &Vec<String>, x: &String) -> (r: bool)
    ensures
        r == v.deep_view().contains(x@),
{
    let n = v.len();
    for i in 0..n
        invariant
            n == v@.len(),
            forall|k: int| 0 <= k < i ==> v.deep_view()[k] != x@,
    {
        proof {
            assert(v.deep_view()[i as int] == v@[i as int]@);
        }
        if v[i].eq(x) {
            proof {
                assert(v.deep_view()[i as int] == x@);
            }
            return true;
        }
    }
    proof {
        if v.deep_view().contains(x@) {
            let k = choose|k: int| 0 <= k < v.deep_view().len() && v.deep_view()[k] == x@;
            assert(v.deep_view()[k] != x@);
        }
    }
    false
}

/// Drop every entry whose lower-cased search term stands in the filter
/// list (itself compared lower-cased); no list, or an empty one, keeps
/// everything.
pub fn filter_entries(entries: Vec<(String, String)>, filter_list: &Option<Vec<String>>) -> (r: Vec<
    (String, String),
>)
    ensures
        match filter_list {
            None => r.deep_view() == entries.deep_view(),
            Some(l) => if l@.len() == 0 {
                r.deep_view() == entries.deep_view()
            } else {
                r.deep_view() == entries.deep_view().filter(kept_by_filter(l.deep_view()))
            },
        },
{
    match filter_list {
        None => entries,
        Some(l) => {
            if l.len() == 0 {
                return entries;
            }
            let ghost lv = l.deep_view();
            let mut low: Vec<String> = Vec::new();
            let ln = l.len();
            for i in 0..ln
                invariant
                    ln == l@.len(),
                    lv == l.deep_view(),
                    low@.len() == i,
                    forall|k: int| 0 <= k < i ==> low.deep_view()[k] == lower_of(lv[k]),
            {
                proof {
                    assert(l.deep_view()[i as int] == l@[i as int]@);
                }
                let x = lowercase(l[i].as_str());
                let ghost before = low.deep_view();
                low.push(x);
                proof {
                    assert(low.deep_view() =~= before.push(lower_of(lv[i as int])));
                }
            }
            proof {
                assert(low.deep_view() =~= lowered(lv));
            }
            let ghost ev = entries.deep_view();
            let mut out: Vec<(String, String)> = Vec::new();
            proof {
                assert(ev.subrange(0, 0) =~= Seq::<(Seq<char>, Seq<char>)>::empty());
                reveal(Seq::filter);
                assert(out.deep_view() =~= ev.subrange(0, 0).filter(kept_by_filter(lv)));
            }
            let n = entries.len();
            for i in 0..n
                invariant
                    n == entries@.len(),
                    ev == entries.deep_view(),
                    ev.len() == n,
                    lv == l.deep_view(),
                    low.deep_view() == lowered(lv),
                    out.deep_view() == ev.subrange(0, i as int).filter(kept_by_filter(lv)),
            {
                proof {
                    assert(entries.deep_view()[i as int] == entries@[i as int].deep_view());
                }
                let lterm = lowercase(entries[i].0.as_str());
                let keep = !contains_string(&low, &lterm);
                let ghost pre = ev.subrange(0, i as int);
                let ghost cur = ev.subrange(0, i + 1);
                proof {
                    reveal(Seq::filter);
                    assert(cur.drop_last() =~= pre);
                    assert(cur.last() == ev[i as int]);
                    assert(lterm@ == lower_of(ev[i as int].0));
                    assert(keep == kept_by_filter(lv)(ev[i as int]));
                }
                if keep {
                    let pair = (entries[i].0.clone(), entries[i].1.clone());
                    let ghost before = out.deep_view();
                    out.push(pair);
                    proof {
                        assert(out.deep_view() =~= before.push(ev[i as int]));
                        assert(cur.filter(kept_by_filter(lv)) == pre.filter(kept_by_filter(lv)).push(
                            ev[i as int],
                        ));
                    }
                } else {
                    proof {
                        assert(cur.filter(kept_by_filter(lv)) == pre.filter(kept_by_filter(lv)));
                    }
                }
            }
            proof {
                assert(ev.subrange(0, n as int) =~= ev);
            }
            out
        },
    }
}

} // verus!
