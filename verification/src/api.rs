use vstd::prelude::*;
use crate::tree::Match;
use crate::tree::MatchV;
use crate::tree::MatchType;
use crate::tree::ResultSelection;
use crate::tree::SpanV;
use crate::tree::match_type_label;
use crate::tree::string_eq;

verus! {

/// A decoded process request, as the surrounding service hands it over:
/// the text to annotate and the two optional knobs of the search.
pub struct ProcessRequest {
    pub text: String,
    pub max_len: Option<String>,
    pub result_selection: Option<ResultSelection>,
}

/// A plain request value.
pub struct Request {
    pub text: String,
    pub max_len: Option<usize>,
    pub result_selection: Option<String>,
}

impl Request {
    /// A request for the given text, with both knobs left at their defaults.
    pub fn new(text: String) -> (r: Request)
        ensures
            r.text@ == text@,
            r.max_len is None,
            r.result_selection is None,
    {
        Request { text, max_len: None, result_selection: None }
    }
}

/// The grouping key of a match in a response record: its search term and
/// the name of its match type.
pub open spec fn group_key(m: MatchV) -> (Seq<char>, Seq<char>) {
    (m.match_string, match_type_label(m.match_type))
}

/// The distinct grouping keys of a match list, in first-appearance order.
pub open spec fn group_keys(ms: Seq<MatchV>) -> Seq<(Seq<char>, Seq<char>)>
    decreases ms.len(),
{
    if ms.len() == 0 {
        Seq::empty()
    } else {
        let front = group_keys(ms.drop_last());
        if front.contains(group_key(ms.last())) {
            front
        } else {
            front.push(group_key(ms.last()))
        }
    }
}

/// The labels of the matches with the given key, in match order.
pub open spec fn labels_for(ms: Seq<MatchV>, k: (Seq<char>, Seq<char>)) -> Seq<Seq<char>>
    decreases ms.len(),
{
    if ms.len() == 0 {
        Seq::empty()
    } else {
        let front = labels_for(ms.drop_last(), k);
        if group_key(ms.last()) == k {
            front.push(ms.last().match_label)
        } else {
            front
        }
    }
}

/// Parts joined by a separator.
pub open spec fn join_sep(parts: Seq<Seq<char>>, sep: Seq<char>) -> Seq<char>
    decreases parts.len(),
{
    if parts.len() == 0 {
        Seq::empty()
    } else if parts.len() == 1 {
        parts[0]
    } else {
        join_sep(parts.drop_last(), sep) + sep + parts.last()
    }
}

pub open spec fn firsts(ps: Seq<(Seq<char>, Seq<char>)>) -> Seq<Seq<char>> {
    Seq::new(ps.len(), |i: int| ps[i].0)
}

pub open spec fn seconds(ps: Seq<(Seq<char>, Seq<char>)>) -> Seq<Seq<char>> {
    Seq::new(ps.len(), |i: int| ps[i].1)
}

/// The mathematical value of a `ResponseRecord`.
pub struct ResponseRecordV {
    pub string: Seq<char>,
    pub match_strings: Seq<char>,
    pub match_labels: Seq<char>,
    pub match_types: Seq<char>,
    pub begin: usize,
    pub end: usize,
}

/// How one span is reported: matches grouped by search term and match
/// type in first-appearance order, the labels of a group joined by a
/// space, and the three grouped columns each joined by `" | "`.
pub open spec fn record_of(span: SpanV) -> ResponseRecordV {
    let ks = group_keys(span.1);
    ResponseRecordV {
        string: span.0,
        match_strings: join_sep(firsts(ks), " | "@),
        match_labels: join_sep(
            Seq::new(ks.len(), |i: int| join_sep(labels_for(span.1, ks[i]), " "@)),
            " | "@,
        ),
        match_types: join_sep(seconds(ks), " | "@),
        begin: span.2,
        end: span.3,
    }
}

/// One record of a process response, all columns already joined.
pub struct ResponseRecord {
    pub string: String,
    pub match_strings: String,
    pub match_labels: String,
    pub match_types: String,
    pub begin: usize,
    pub end: usize,
}

impl View for ResponseRecord {
    type V = ResponseRecordV;

    open spec fn view(&self) -> ResponseRecordV {
        ResponseRecordV {
            string: self.string@,
            match_strings: self.match_strings@,
            match_labels: self.match_labels@,
            match_types: self.match_types@,
            begin: self.begin,
            end: self.end,
        }
    }
}

impl DeepView for ResponseRecord {
    type V = ResponseRecordV;

    open spec fn deep_view(&self) -> ResponseRecordV {
        self.view()
    }
}

fn join_sep_exec(parts: &Vec<String>, sep: &str) -> (r: String)
    ensures
        r@ == join_sep(parts.deep_view(), sep@),
{
    let mut s = String::new();
    let n = parts.len();
    proof {
        assert(parts.deep_view().subrange(0, 0) =~= Seq::<Seq<char>>::empty());
    }
    for j in 0..n
        invariant
            n == parts@.len(),
            s@ == join_sep(parts.deep_view().subrange(0, j as int), sep@),
    {
        proof {
            assert(parts.deep_view()[j as int] == parts@[j as int]@);
        }
        if j > 0 {
            s.append(sep);
        }
        s.append(parts[j].as_str());
        proof {
            let pv = parts.deep_view();
            let prev = pv.subrange(0, j as int);
            let cur = pv.subrange(0, j + 1);
            assert(cur.drop_last() =~= prev);
            assert(cur.last() == pv[j as int]);
            if j == 0 {
                assert(cur.len() == 1);
                assert(s@ =~= pv[0]);
            }
        }
    }
    proof {
        assert(parts.deep_view().subrange(0, n as int) =~= parts.deep_view());
    }
    s
}

fn find_group(keys: &Vec<(String, String)>, ks: &String, kt: &String) -> (r: Option<usize>)
    ensures
        match r {
            Some(g) => g < keys@.len() && keys.deep_view()[g as int] == (ks@, kt@),
            None => !keys.deep_view().contains((ks@, kt@)),
        },
{
    let n = keys.len();
    for g in 0..n
        invariant
            n == keys@.len(),
            forall|t: int| 0 <= t < g ==> keys.deep_view()[t] != (ks@, kt@),
    {
        proof {
            assert(keys.deep_view()[g as int] == keys@[g as int].deep_view());
        }
        if string_eq(&keys[g].0, ks) && string_eq(&keys[g].1, kt) {
            return Some(g);
        }
    }
    proof {
        if keys.deep_view().contains((ks@, kt@)) {
            let t = choose|t: int|
                0 <= t < keys.deep_view().len() && keys.deep_view()[t] == (ks@, kt@);
            assert(keys.deep_view()[t] != (ks@, kt@));
        }
    }
    None
}

/// Shape one span into its response record.
fn shape_span(span: &(String, Vec<Match>, usize, usize)) -> (r: ResponseRecord)
    ensures
        r@ == record_of(span.deep_view()),
{
    let ghost ms = span.1.deep_view();
    let mut keys: Vec<(String, String)> = Vec::new();
    let mut lgroups: Vec<Vec<String>> = Vec::new();
    let n = span.1.len();
    proof {
        assert(ms.subrange(0, 0) =~= Seq::<MatchV>::empty());
    }
    for i in 0..n
        invariant
            n == span.1@.len(),
            ms == span.1.deep_view(),
            ms.len() == n,
            keys.deep_view() == group_keys(ms.subrange(0, i as int)),
            lgroups@.len() == keys@.len(),
            forall|g: int, h: int|
                0 <= g < h < keys.deep_view().len() ==> keys.deep_view()[g] != keys.deep_view()[h],
            forall|g: int|
                0 <= g < keys.deep_view().len() ==> #[trigger] lgroups.deep_view()[g] == labels_for(
                    ms.subrange(0, i as int),
                    keys.deep_view()[g],
                ),
    {
        proof {
            assert(span.1.deep_view()[i as int] == span.1@[i as int].deep_view());
            assert(ms.subrange(0, i + 1).drop_last() =~= ms.subrange(0, i as int));
            assert(ms.subrange(0, i + 1).last() == ms[i as int]);
        }
        let m = &span.1[i];
        let ks: String = (*m.match_string).clone();
        let kt: String = m.match_type.display_name();
        let label: String = (*m.match_label).clone();
        let ghost k = group_key(ms[i as int]);
        proof {
            assert((ks@, kt@) == k);
        }
        let ghost old_keys = keys.deep_view();
        let ghost old_groups = lgroups.deep_view();
        match find_group(&keys, &ks, &kt) {
            Some(g) => {
                proof {
                    assert(old_keys.contains(k)) by {
                        assert(old_keys[g as int] == k);
                    }
                }
                let ghost old_list = lgroups.deep_view()[g as int];
                lgroups[g].push(label);
                proof {
                    assert(lgroups.deep_view() =~~= old_groups.update(
                        g as int,
                        old_list.push(ms[i as int].match_label),
                    ));
                    assert forall|t: int|
                        0 <= t < keys.deep_view().len() implies #[trigger] lgroups.deep_view()[t]
                        == labels_for(ms.subrange(0, i + 1), keys.deep_view()[t]) by {
                        if t == g {
                            assert(group_key(ms[i as int]) == keys.deep_view()[t]);
                        } else {
                            assert(keys.deep_view()[t] != k);
                        }
                    }
                }
            },
            None => {
                let mut fresh: Vec<String> = Vec::new();
                fresh.push(label);
                keys.push((ks, kt));
                lgroups.push(fresh);
                proof {
                    assert(keys.deep_view() =~~= old_keys.push(k));
                    assert(lgroups.deep_view() =~~= old_groups.push(
                        seq![ms[i as int].match_label],
                    ));
                    assert forall|t: int|
                        0 <= t < keys.deep_view().len() implies #[trigger] lgroups.deep_view()[t]
                        == labels_for(ms.subrange(0, i + 1), keys.deep_view()[t]) by {
                        if t < old_keys.len() {
                            assert(keys.deep_view()[t] == old_keys[t]);
                            assert(keys.deep_view()[t] != k);
                        } else {
                            assert(keys.deep_view()[t] == k);
                            assert(labels_for(ms.subrange(0, i as int), k) =~= Seq::<
                                Seq<char>,
                            >::empty()) by {
                                lemma_labels_for_absent(ms.subrange(0, i as int), k);
                            }
                        }
                    }
                }
            },
        }
    }
    proof {
        assert(ms.subrange(0, n as int) =~= ms);
    }
    let kn = keys.len();
    let mut strings_v: Vec<String> = Vec::new();
    let mut types_v: Vec<String> = Vec::new();
    let mut labels_v: Vec<String> = Vec::new();
    for g in 0..kn
        invariant
            kn == keys@.len(),
            lgroups@.len() == kn,
            keys.deep_view() == group_keys(ms),
            forall|t: int|
                0 <= t < kn ==> #[trigger] lgroups.deep_view()[t] == labels_for(
                    ms,
                    keys.deep_view()[t],
                ),
            strings_v@.len() == g,
            types_v@.len() == g,
            labels_v@.len() == g,
            forall|t: int| 0 <= t < g ==> strings_v.deep_view()[t] == firsts(group_keys(ms))[t],
            forall|t: int| 0 <= t < g ==> types_v.deep_view()[t] == seconds(group_keys(ms))[t],
            forall|t: int|
                0 <= t < g ==> labels_v.deep_view()[t] == join_sep(
                    labels_for(ms, group_keys(ms)[t]),
                    " "@,
                ),
    {
        proof {
            assert(keys.deep_view()[g as int] == keys@[g as int].deep_view());
            assert(lgroups.deep_view()[g as int] == lgroups@[g as int].deep_view());
        }
        let ghost before_s = strings_v.deep_view();
        let ghost before_t = types_v.deep_view();
        let ghost before_l = labels_v.deep_view();
        strings_v.push(keys[g].0.clone());
        types_v.push(keys[g].1.clone());
        let joined = join_sep_exec(&lgroups[g], " ");
        labels_v.push(joined);
        proof {
            assert(strings_v.deep_view() =~= before_s.push(keys.deep_view()[g as int].0));
            assert(types_v.deep_view() =~= before_t.push(keys.deep_view()[g as int].1));
            assert(labels_v.deep_view() =~= before_l.push(
                join_sep(labels_for(ms, group_keys(ms)[g as int]), " "@),
            ));
        }
    }
    proof {
        assert(strings_v.deep_view() =~= firsts(group_keys(ms)));
        assert(types_v.deep_view() =~= seconds(group_keys(ms)));
        assert(labels_v.deep_view() =~= Seq::new(
            group_keys(ms).len(),
            |i: int| join_sep(labels_for(ms, group_keys(ms)[i]), " "@),
        ));
    }
    let r = ResponseRecord {
        string: span.0.clone(),
        match_strings: join_sep_exec(&strings_v, " | "),
        match_labels: join_sep_exec(&labels_v, " | "),
        match_types: join_sep_exec(&types_v, " | "),
        begin: span.2,
        end: span.3,
    };
    r
}

proof fn lemma_labels_for_absent(ms: Seq<MatchV>, k: (Seq<char>, Seq<char>))
    requires
        !group_keys(ms).contains(k),
    ensures
        labels_for(ms, k) == Seq::<Seq<char>>::empty(),
    decreases ms.len(),
{
    if ms.len() > 0 {
        let front = group_keys(ms.drop_last());
        assert(!front.contains(k)) by {
            if front.contains(k) {
                let t = choose|t: int| 0 <= t < front.len() && front[t] == k;
                if front.contains(group_key(ms.last())) {
                    assert(group_keys(ms)[t] == k);
                } else {
                    assert(group_keys(ms)[t] == k);
                }
            }
        }
        lemma_labels_for_absent(ms.drop_last(), k);
        assert(group_key(ms.last()) != k) by {
            if group_key(ms.last()) == k {
                if front.contains(k) {
                } else {
                    assert(group_keys(ms).last() == k);
                    assert(group_keys(ms).contains(k));
                }
            }
        }
    }
}

/// Shape a whole search result into response records, one per span, in
/// span order.
pub fn response_records(results: &Vec<(String, Vec<Match>, usize, usize)>) -> (r: Vec<
    ResponseRecord,
>)
    ensures
        r@.len() == results@.len(),
        forall|i: int|
            0 <= i < results@.len() ==> (#[trigger] r@[i])@ == record_of(results.deep_view()[i]),
{
    let mut out: Vec<ResponseRecord> = Vec::new();
    let n = results.len();
    for i in 0..n
        invariant
            n == results@.len(),
            out@.len() == i,
            forall|t: int|
                0 <= t < i ==> (#[trigger] out@[t])@ == record_of(results.deep_view()[t]),
    {
        proof {
            assert(results.deep_view()[i as int] == results@[i as int].deep_view());
        }
        let rec = shape_span(&results[i]);
        out.push(rec);
    }
    out
}

} // verus!
