use vstd::prelude::*;
use vstd::string::StrSliceExecFns;

use crate::choice::{plain_choice, texts, views, Choice, ChoiceView};
use crate::order::{
    items_of, lemma_insert_at, lemma_sorted_unchanged, lemma_stable_sort, lemma_stable_sort_items,
    stable_sort, total_preorder, zip_keys,
};
use crate::text::{
    contains_text, find_text, first_occurrence, fold_case, folded, lemma_empty_contained,
    lemma_first_occurrence, split_on, split_text,
};

verus! {

/// The settings that drive matching: whether case is ignored, whether choices
/// come from desktop entries, a newline-separated list of literal choices, and
/// the query.
pub struct CliArgs {
    pub insensetive: bool,
    pub desktop: bool,
    pub options: String,
    pub query: String,
}

/// The choices given as a newline-separated list: one per line, each named
/// and valued by its line, with no icon; none for an empty list.
pub open spec fn option_choices(options: Seq<char>) -> Seq<ChoiceView> {
    if options.len() == 0 {
        Seq::empty()
    } else {
        split_on(options, '\n').map_values(|l: Seq<char>| plain_choice(l))
    }
}

impl CliArgs {
    /// The choices listed in `options`, one per line.
    pub fn user_options(&self) -> (r: Vec<Choice>)
        ensures
            views(r@) == option_choices(self.options@),
    {
        let mut choices: Vec<Choice> = Vec::new();
        if self.options.as_str().unicode_len() == 0 {
            proof {
                assert(views(choices@) =~= option_choices(self.options@));
            }
            return choices;
        }
        let lines = split_text(self.options.as_str(), '\n');
        let mut i: usize = 0;
        while i < lines.len()
            invariant
                i <= lines@.len(),
                lines@.len() == split_on(self.options@, '\n').len(),
                forall|j: int| 0 <= j < lines@.len() ==> (#[trigger] lines@[j])@ == split_on(self.options@, '\n')[j],
                views(choices@) == option_choices(self.options@).take(i as int),
                self.options@.len() > 0,
            decreases lines@.len() - i,
        {
            let ghost prev = views(choices@);
            let line = lines[i].clone();
            let c = Choice::plain(line);
            choices.push(c);
            proof {
                assert(views(choices@) =~= prev.push(c@));
                assert(c@ == option_choices(self.options@)[i as int]);
                assert(views(choices@) =~= option_choices(self.options@).take(i + 1));
            }
            i = i + 1;
        }
        proof {
            assert(option_choices(self.options@).take(i as int) =~= option_choices(self.options@));
        }
        choices
    }
}

/// How well a name matches a query: where the query first occurs in the
/// name (`None` when it does not), and the name's length, both counted in
/// characters.
pub struct MatchRank {
    pub position: Option<usize>,
    pub length: usize,
}

impl View for MatchRank {
    type V = (Option<nat>, nat);

    open spec fn view(&self) -> (Option<nat>, nat) {
        let p = match self.position {
            Some(k) => Some(k as nat),
            None => None,
        };
        (p, self.length as nat)
    }
}

/// `a` may stand before `b`: an earlier match first, no match last, and the
/// shorter name first among equal positions.
pub open spec fn rank_le(a: (Option<nat>, nat), b: (Option<nat>, nat)) -> bool {
    match (a.0, b.0) {
        (Some(x), Some(y)) => x < y || (x == y && a.1 <= b.1),
        (Some(_), None) => true,
        (None, Some(_)) => false,
        (None, None) => a.1 <= b.1,
    }
}

/// `rank_le` as a function value.
pub open spec fn by_rank() -> spec_fn((Option<nat>, nat), (Option<nat>, nat)) -> bool {
    |a: (Option<nat>, nat), b: (Option<nat>, nat)| rank_le(a, b)
}

/// The rank of choice `c` under query `q`. Positions and lengths count
/// characters, not UTF-8 bytes.
pub open spec fn rank_of(c: ChoiceView, q: Seq<char>, insensitive: bool) -> (Option<nat>, nat) {
    (first_occurrence(folded(c.name, insensitive), folded(q, insensitive)), c.name.len())
}

/// Each choice paired with its rank.
pub open spec fn ranked(xs: Seq<ChoiceView>, q: Seq<char>, insensitive: bool) -> Seq<(ChoiceView, (Option<nat>, nat))> {
    xs.map_values(|c: ChoiceView| (c, rank_of(c, q, insensitive)))
}

/// The choices ordered by rank, equal ranks in their input order.
pub open spec fn sorted_choices(xs: Seq<ChoiceView>, q: Seq<char>, insensitive: bool) -> Seq<ChoiceView> {
    items_of(stable_sort(ranked(xs, q, insensitive), by_rank()))
}

/// The items whose key contains `q`, in their input order.
pub open spec fn select<T>(s: Seq<(T, Seq<char>)>, q: Seq<char>) -> Seq<T>
    decreases s.len(),
{
    if s.len() == 0 {
        Seq::empty()
    } else {
        let rest = select(s.drop_last(), q);
        if contains_text(s.last().1, q) {
            rest.push(s.last().0)
        } else {
            rest
        }
    }
}

/// Each choice paired with its name as compared.
pub open spec fn folded_names(xs: Seq<ChoiceView>, insensitive: bool) -> Seq<(ChoiceView, Seq<char>)> {
    xs.map_values(|c: ChoiceView| (c, folded(c.name, insensitive)))
}

/// The choices whose name, as compared, contains the query, as compared.
pub open spec fn filtered(xs: Seq<ChoiceView>, q: Seq<char>, insensitive: bool) -> Seq<ChoiceView> {
    select(folded_names(xs, insensitive), folded(q, insensitive))
}

/// The views of a sequence of ranks.
pub open spec fn rank_views(v: Seq<MatchRank>) -> Seq<(Option<nat>, nat)> {
    v.map_values(|r: MatchRank| r@)
}

/// Rank order is a total preorder, so it can drive any sort.
pub proof fn lemma_rank_order()
    ensures
        total_preorder(by_rank()),
{
}

/// Whether `a` may stand before `b`.
pub fn rank_before(a: &MatchRank, b: &MatchRank) -> (r: bool)
    ensures
        r == rank_le(a@, b@),
{
    match (a.position, b.position) {
        (Some(x), Some(y)) => x < y || (x == y && a.length <= b.length),
        (Some(_), None) => true,
        (None, Some(_)) => false,
        (None, None) => a.length <= b.length,
    }
}

/// The rank of a name whose compared form is `folded_name`, under a query
/// whose compared form is `folded_query`.
pub fn match_rank(name: &String, folded_name: &String, folded_query: &String) -> (r: MatchRank)
    ensures
        r@ == (first_occurrence(folded_name@, folded_query@), name@.len()),
{
    let length = name.as_str().unicode_len();
    let position = find_text(folded_name.as_str(), folded_query.as_str());
    MatchRank { position, length }
}

/// Orders `entries` by the paired `ranks`; entries of equal rank keep their
/// order.
pub fn sort_by_rank(entries: Vec<Choice>, ranks: Vec<MatchRank>) -> (r: Vec<Choice>)
    requires
        entries@.len() == ranks@.len(),
    ensures
        views(r@) == items_of(stable_sort(zip_keys(views(entries@), rank_views(ranks@)), by_rank())),
{
    let ghost input = zip_keys(views(entries@), rank_views(ranks@));
    let mut entries = entries;
    let mut ranks = ranks;
    let mut out: Vec<Choice> = Vec::new();
    let mut out_ranks: Vec<MatchRank> = Vec::new();
    let ghost mut i: int = 0;
    while entries.len() > 0
        invariant
            entries@.len() == ranks@.len(),
            out@.len() == out_ranks@.len(),
            0 <= i <= input.len(),
            i + entries@.len() == input.len(),
            zip_keys(views(entries@), rank_views(ranks@)) == input.skip(i),
            zip_keys(views(out@), rank_views(out_ranks@)) == stable_sort(input.take(i), by_rank()),
        decreases entries@.len(),
    {
        let ghost before = zip_keys(views(out@), rank_views(out_ranks@));
        let ghost rest = zip_keys(views(entries@), rank_views(ranks@));
        let ghost e0 = entries@;
        let ghost r0 = ranks@;
        let x = entries.remove(0);
        let k = ranks.remove(0);
        assert(rest[0] == input[i]);
        assert(rest[0] == (x@, k@));
        let mut p: usize = out.len();
        while p > 0 && !rank_before(&out_ranks[p - 1], &k)
            invariant
                p <= out_ranks@.len(),
                forall|m: int| p <= m < out_ranks@.len() ==> !rank_le(#[trigger] out_ranks@[m]@, k@),
            decreases p,
        {
            p = p - 1;
        }
        proof {
            assert forall|m: int| p <= m < before.len() implies !(#[trigger] by_rank()(before[m].1, k@)) by {
                assert(before[m].1 == out_ranks@[m]@);
            }
            if p > 0 {
                assert(before[p - 1].1 == out_ranks@[p - 1]@);
            }
            lemma_insert_at(before, (x@, k@), by_rank(), p as int);
            let t = input.take(i + 1);
            assert(t.drop_last() =~= input.take(i));
            assert(t.last() == (x@, k@));
        }
        out.insert(p, x);
        out_ranks.insert(p, k);
        proof {
            assert(zip_keys(views(out@), rank_views(out_ranks@)) =~= before.insert(p as int, (x@, k@)));
            let z = zip_keys(views(entries@), rank_views(ranks@));
            assert forall|j: int| 0 <= j < z.len() implies z[j] == input.skip(i + 1)[j] by {
                assert(entries@[j] == e0[j + 1]);
                assert(ranks@[j] == r0[j + 1]);
                assert(rest[j + 1] == input[i + 1 + j]);
            }
            assert(z =~= input.skip(i + 1));
            i = i + 1;
        }
    }
    proof {
        assert(input.take(i) =~= input);
        assert(views(out@) =~= items_of(zip_keys(views(out@), rank_views(out_ranks@))));
    }
    out
}

/// Each choice ranked and ordered: the sorted choices paired with their ranks
/// are the stable sort of the ranked choices, and their ranks never decrease.
pub proof fn lemma_sorted_choices(xs: Seq<ChoiceView>, q: Seq<char>, insensitive: bool)
    ensures
        ranked(sorted_choices(xs, q, insensitive), q, insensitive) == stable_sort(ranked(xs, q, insensitive), by_rank()),
        sorted_choices(xs, q, insensitive).len() == xs.len(),
{
    let s = stable_sort(ranked(xs, q, insensitive), by_rank());
    lemma_stable_sort(ranked(xs, q, insensitive), by_rank());
    let ys = sorted_choices(xs, q, insensitive);
    assert forall|i: int| 0 <= i < s.len() implies (#[trigger] s[i]).1 == rank_of(s[i].0, q, insensitive) by {
        assert(ranked(xs, q, insensitive).contains(s[i]));
    }
    assert(ranked(ys, q, insensitive) =~= s);
}

/// Sorting twice gives what sorting once gives.
pub proof fn law_sort_idempotent(xs: Seq<ChoiceView>, q: Seq<char>, insensitive: bool)
    ensures
        sorted_choices(sorted_choices(xs, q, insensitive), q, insensitive) == sorted_choices(xs, q, insensitive),
{
    let s = stable_sort(ranked(xs, q, insensitive), by_rank());
    lemma_stable_sort(ranked(xs, q, insensitive), by_rank());
    lemma_sorted_choices(xs, q, insensitive);
    lemma_sorted_unchanged(s, by_rank());
}

/// In sorted choices, an earlier choice matches no later than a later one,
/// and among equal match positions the shorter name comes first.
pub proof fn law_sort_respects_rank(xs: Seq<ChoiceView>, q: Seq<char>, insensitive: bool)
    ensures
        forall|i: int, j: int| 0 <= i < j < xs.len() ==> rank_le(
            rank_of(#[trigger] sorted_choices(xs, q, insensitive)[i], q, insensitive),
            rank_of(#[trigger] sorted_choices(xs, q, insensitive)[j], q, insensitive),
        ),
{
    let ys = sorted_choices(xs, q, insensitive);
    let s = stable_sort(ranked(xs, q, insensitive), by_rank());
    lemma_stable_sort(ranked(xs, q, insensitive), by_rank());
    lemma_sorted_choices(xs, q, insensitive);
    assert forall|i: int, j: int| 0 <= i < j < xs.len() implies rank_le(
        rank_of(#[trigger] ys[i], q, insensitive),
        rank_of(#[trigger] ys[j], q, insensitive),
    ) by {
        assert(ranked(ys, q, insensitive)[i] == s[i]);
        assert(ranked(ys, q, insensitive)[j] == s[j]);
        assert(by_rank()(s[i].1, s[j].1));
    }
}

/// Orders the choices by how early the query occurs in their names (no
/// occurrence last), then by name length, both counted in characters;
/// choices that tie keep their order.
pub fn sort_entries(args: CliArgs, entries: &mut Vec<Choice>)
    ensures
        views(final(entries)@) == sorted_choices(views(old(entries)@), args.query@, args.insensetive),
        forall|i: int, j: int| 0 <= i < j < final(entries)@.len() ==> rank_le(
            rank_of(#[trigger] final(entries)@[i]@, args.query@, args.insensetive),
            rank_of(#[trigger] final(entries)@[j]@, args.query@, args.insensetive),
        ),
{
    let ghost xs = views(entries@);
    let q = fold_case(&args.query, args.insensetive);
    let mut ranks: Vec<MatchRank> = Vec::new();
    let mut i: usize = 0;
    while i < entries.len()
        invariant
            views(entries@) == xs,
            i <= entries@.len(),
            ranks@.len() == i,
            q@ == folded(args.query@, args.insensetive),
            forall|j: int| 0 <= j < i ==> (#[trigger] ranks@[j])@ == rank_of(entries@[j]@, args.query@, args.insensetive),
        decreases entries@.len() - i,
    {
        let f = fold_case(&entries[i].name, args.insensetive);
        ranks.push(match_rank(&entries[i].name, &f, &q));
        i = i + 1;
    }
    let mut taken: Vec<Choice> = Vec::new();
    std::mem::swap(entries, &mut taken);
    proof {
        assert(zip_keys(views(taken@), rank_views(ranks@)) =~= ranked(xs, args.query@, args.insensetive));
    }
    let mut sorted = sort_by_rank(taken, ranks);
    std::mem::swap(entries, &mut sorted);
    proof {
        law_sort_respects_rank(xs, args.query@, args.insensetive);
        assert forall|i: int, j: int| 0 <= i < j < entries@.len() implies rank_le(
            rank_of(#[trigger] entries@[i]@, args.query@, args.insensetive),
            rank_of(#[trigger] entries@[j]@, args.query@, args.insensetive),
        ) by {
            lemma_sorted_choices(xs, args.query@, args.insensetive);
            assert(entries@[i]@ == views(entries@)[i]);
            assert(entries@[j]@ == views(entries@)[j]);
        }
    }
}

proof fn lemma_select_members<T>(s: Seq<(T, Seq<char>)>, q: Seq<char>, v: T)
    ensures
        select(s, q).contains(v) <==> exists|i: int| 0 <= i < s.len() && (#[trigger] s[i]).0 == v && contains_text(s[i].1, q),
    decreases s.len(),
{
    if s.len() > 0 {
        let u = s.drop_last();
        let rest = select(u, q);
        lemma_select_members(u, q, v);
        if select(s, q).contains(v) {
            let k = choose|k: int| 0 <= k < select(s, q).len() && select(s, q)[k] == v;
            if k < rest.len() {
                assert(rest.contains(v));
                let i = choose|i: int| 0 <= i < u.len() && (#[trigger] u[i]).0 == v && contains_text(u[i].1, q);
                assert(s[i] == u[i]);
            } else {
                assert(s[s.len() - 1].0 == v);
            }
        }
        if exists|i: int| 0 <= i < s.len() && (#[trigger] s[i]).0 == v && contains_text(s[i].1, q) {
            let i = choose|i: int| 0 <= i < s.len() && (#[trigger] s[i]).0 == v && contains_text(s[i].1, q);
            if i < u.len() {
                assert(u[i] == s[i]);
                assert(rest.contains(v));
                let k = choose|k: int| 0 <= k < rest.len() && rest[k] == v;
                if contains_text(s.last().1, q) {
                    assert(select(s, q)[k] == v);
                }
            } else {
                assert(select(s, q)[rest.len() as int] == v);
            }
        }
    }
}

proof fn lemma_select_all<T>(s: Seq<(T, Seq<char>)>, q: Seq<char>)
    requires
        forall|i: int| 0 <= i < s.len() ==> contains_text((#[trigger] s[i]).1, q),
    ensures
        select(s, q) == items_of(s),
    decreases s.len(),
{
    if s.len() > 0 {
        let u = s.drop_last();
        assert forall|i: int| 0 <= i < u.len() implies contains_text((#[trigger] u[i]).1, q) by {
            assert(u[i] == s[i]);
        }
        lemma_select_all(u, q);
        assert(contains_text(s[s.len() - 1].1, q));
        assert(items_of(u).push(s.last().0) =~= items_of(s));
    }
}

/// With an empty query every choice is kept, in its input order.
pub proof fn law_empty_query_keeps_all(xs: Seq<ChoiceView>, insensitive: bool)
    ensures
        filtered(xs, Seq::empty(), insensitive) == xs,
{
    let s = folded_names(xs, insensitive);
    assert(folded(Seq::<char>::empty(), insensitive) == Seq::<char>::empty());
    assert forall|i: int| 0 <= i < s.len() implies contains_text((#[trigger] s[i]).1, Seq::empty()) by {
        lemma_empty_contained(s[i].1);
    }
    lemma_select_all(s, Seq::empty());
    assert(items_of(s) =~= xs);
}

/// A choice is kept exactly when it is one of the input choices and its name,
/// as compared, contains the query, as compared.
pub proof fn law_filter_keeps_matches(xs: Seq<ChoiceView>, q: Seq<char>, insensitive: bool, c: ChoiceView)
    ensures
        filtered(xs, q, insensitive).contains(c) <==> (xs.contains(c) && contains_text(
            folded(c.name, insensitive),
            folded(q, insensitive),
        )),
{
    let s = folded_names(xs, insensitive);
    lemma_select_members(s, folded(q, insensitive), c);
    if xs.contains(c) && contains_text(folded(c.name, insensitive), folded(q, insensitive)) {
        let i = choose|i: int| 0 <= i < xs.len() && xs[i] == c;
        assert(s[i].0 == c);
    }
    if filtered(xs, q, insensitive).contains(c) {
        let i = choose|i: int| 0 <= i < s.len() && (#[trigger] s[i]).0 == c && contains_text(s[i].1, folded(q, insensitive));
        assert(xs[i] == c);
    }
}

/// The entries whose paired compared name contains `query`, in their order.
pub fn filter_folded(entries: &Vec<Choice>, names: &Vec<String>, query: &String) -> (r: Vec<Choice>)
    requires
        entries@.len() == names@.len(),
    ensures
        views(r@) == select(zip_keys(views(entries@), texts(names@)), query@),
{
    let ghost s = zip_keys(views(entries@), texts(names@));
    let mut out: Vec<Choice> = Vec::new();
    let mut i: usize = 0;
    while i < entries.len()
        invariant
            entries@.len() == names@.len(),
            s == zip_keys(views(entries@), texts(names@)),
            i <= entries@.len(),
            views(out@) == select(s.take(i as int), query@),
        decreases entries@.len() - i,
    {
        proof {
            lemma_first_occurrence(names@[i as int]@, query@);
            assert(s.take(i + 1).drop_last() =~= s.take(i as int));
            assert(s.take(i + 1).last() == (entries@[i as int]@, names@[i as int]@));
        }
        match find_text(names[i].as_str(), query.as_str()) {
            Some(_) => {
                out.push(entries[i].duplicate());
                proof {
                    assert(views(out@) =~= select(s.take(i as int), query@).push(entries@[i as int]@));
                }
            },
            None => {},
        }
        i = i + 1;
    }
    proof {
        assert(s.take(i as int) =~= s);
    }
    out
}

/// The choices whose name contains the query as a contiguous piece, both
/// lower-cased when case is ignored; the choices keep their order.
pub fn filter_entries(args: CliArgs, entries: Vec<Choice>) -> (r: Vec<Choice>)
    ensures
        views(r@) == filtered(views(entries@), args.query@, args.insensetive),
{
    let q = fold_case(&args.query, args.insensetive);
    let mut names: Vec<String> = Vec::new();
    let mut i: usize = 0;
    while i < entries.len()
        invariant
            i <= entries@.len(),
            names@.len() == i,
            forall|j: int| 0 <= j < i ==> (#[trigger] names@[j])@ == folded(entries@[j].name@, args.insensetive),
        decreases entries@.len() - i,
    {
        names.push(fold_case(&entries[i].name, args.insensetive));
        i = i + 1;
    }
    proof {
        assert(zip_keys(views(entries@), texts(names@)) =~= folded_names(views(entries@), args.insensetive));
    }
    filter_folded(&entries, &names, &q)
}

/// `a` comes no later than `b` in character order, a prefix first.
pub open spec fn text_le(a: Seq<char>, b: Seq<char>) -> bool
    decreases a.len(),
{
    if a.len() == 0 {
        true
    } else if b.len() == 0 {
        false
    } else if a[0] != b[0] {
        a[0] < b[0]
    } else {
        text_le(a.drop_first(), b.drop_first())
    }
}

/// `text_le` as a function value.
pub open spec fn by_text() -> spec_fn(Seq<char>, Seq<char>) -> bool {
    |a: Seq<char>, b: Seq<char>| text_le(a, b)
}

/// Each choice paired with its lower-cased name.
pub open spec fn lowered_names(xs: Seq<ChoiceView>) -> Seq<(ChoiceView, Seq<char>)> {
    xs.map_values(|c: ChoiceView| (c, folded(c.name, true)))
}

/// The choices in character order of their lower-cased names; equal names
/// keep their order.
pub open spec fn alpha_sorted(xs: Seq<ChoiceView>) -> Seq<ChoiceView> {
    items_of(stable_sort(lowered_names(xs), by_text()))
}

/// The views of a sequence of character vectors.
pub open spec fn char_views(v: Seq<Vec<char>>) -> Seq<Seq<char>> {
    v.map_values(|c: Vec<char>| c@)
}

proof fn lemma_text_total(a: Seq<char>, b: Seq<char>)
    ensures
        text_le(a, b) || text_le(b, a),
    decreases a.len(),
{
    if a.len() > 0 && b.len() > 0 && a[0] == b[0] {
        lemma_text_total(a.drop_first(), b.drop_first());
    }
}

proof fn lemma_text_transitive(a: Seq<char>, b: Seq<char>, c: Seq<char>)
    requires
        text_le(a, b),
        text_le(b, c),
    ensures
        text_le(a, c),
    decreases a.len(),
{
    if a.len() > 0 && b.len() > 0 && c.len() > 0 && a[0] == b[0] && b[0] == c[0] {
        lemma_text_transitive(a.drop_first(), b.drop_first(), c.drop_first());
    }
}

/// Character order is a total preorder.
pub proof fn lemma_text_order()
    ensures
        total_preorder(by_text()),
{
    assert forall|a: Seq<char>, b: Seq<char>| #[trigger] by_text()(a, b) || by_text()(b, a) by {
        lemma_text_total(a, b);
    }
    assert forall|a: Seq<char>, b: Seq<char>, c: Seq<char>| #[trigger] by_text()(a, b) && #[trigger] by_text()(b, c) implies by_text()(a, c) by {
        lemma_text_transitive(a, b, c);
    }
}

/// Whether `a` comes no later than `b` in character order.
pub fn text_before(a: &Vec<char>, b: &Vec<char>) -> (r: bool)
    ensures
        r == text_le(a@, b@),
{
    let mut i: usize = 0;
    proof {
        assert(a@.skip(0) =~= a@);
        assert(b@.skip(0) =~= b@);
    }
    while i < a.len() && i < b.len() && a[i] == b[i]
        invariant
            i <= a@.len(),
            i <= b@.len(),
            text_le(a@, b@) == text_le(a@.skip(i as int), b@.skip(i as int)),
        decreases a@.len() - i,
    {
        proof {
            assert(a@.skip(i as int).drop_first() =~= a@.skip(i + 1));
            assert(b@.skip(i as int).drop_first() =~= b@.skip(i + 1));
        }
        i = i + 1;
    }
    if i == a.len() {
        true
    } else if i == b.len() {
        false
    } else {
        a[i] < b[i]
    }
}

/// Orders `entries` by the paired `keys` in character order; entries with
/// equal keys keep their order.
pub fn sort_by_text(entries: Vec<Choice>, keys: Vec<Vec<char>>) -> (r: Vec<Choice>)
    requires
        entries@.len() == keys@.len(),
    ensures
        views(r@) == items_of(stable_sort(zip_keys(views(entries@), char_views(keys@)), by_text())),
{
    let ghost input = zip_keys(views(entries@), char_views(keys@));
    let mut entries = entries;
    let mut keys = keys;
    let mut out: Vec<Choice> = Vec::new();
    let mut out_keys: Vec<Vec<char>> = Vec::new();
    let ghost mut i: int = 0;
    while entries.len() > 0
        invariant
            entries@.len() == keys@.len(),
            out@.len() == out_keys@.len(),
            0 <= i <= input.len(),
            i + entries@.len() == input.len(),
            zip_keys(views(entries@), char_views(keys@)) == input.skip(i),
            zip_keys(views(out@), char_views(out_keys@)) == stable_sort(input.take(i), by_text()),
        decreases entries@.len(),
    {
        let ghost before = zip_keys(views(out@), char_views(out_keys@));
        let ghost rest = zip_keys(views(entries@), char_views(keys@));
        let ghost e0 = entries@;
        let ghost k0 = keys@;
        let x = entries.remove(0);
        let k = keys.remove(0);
        assert(rest[0] == input[i]);
        assert(rest[0] == (x@, k@));
        let mut p: usize = out.len();
        while p > 0 && !text_before(&out_keys[p - 1], &k)
            invariant
                p <= out_keys@.len(),
                forall|m: int| p <= m < out_keys@.len() ==> !text_le(#[trigger] out_keys@[m]@, k@),
            decreases p,
        {
            p = p - 1;
        }
        proof {
            assert forall|m: int| p <= m < before.len() implies !(#[trigger] by_text()(before[m].1, k@)) by {
                assert(before[m].1 == out_keys@[m]@);
            }
            if p > 0 {
                assert(before[p - 1].1 == out_keys@[p - 1]@);
            }
            lemma_insert_at(before, (x@, k@), by_text(), p as int);
            let t = input.take(i + 1);
            assert(t.drop_last() =~= input.take(i));
            assert(t.last() == (x@, k@));
        }
        out.insert(p, x);
        out_keys.insert(p, k);
        proof {
            assert(zip_keys(views(out@), char_views(out_keys@)) =~= before.insert(p as int, (x@, k@)));
            let z = zip_keys(views(entries@), char_views(keys@));
            assert forall|j: int| 0 <= j < z.len() implies z[j] == input.skip(i + 1)[j] by {
                assert(entries@[j] == e0[j + 1]);
                assert(keys@[j] == k0[j + 1]);
                assert(rest[j + 1] == input[i + 1 + j]);
            }
            assert(z =~= input.skip(i + 1));
            i = i + 1;
        }
    }
    proof {
        assert(input.take(i) =~= input);
        assert(views(out@) =~= items_of(zip_keys(views(out@), char_views(out_keys@))));
    }
    out
}

/// Orders the choices by their lower-cased names in character order; equal
/// names keep their order.
pub fn alpha_sort_entries(entries: &mut Vec<Choice>)
    ensures
        views(final(entries)@) == alpha_sorted(views(old(entries)@)),
        forall|i: int, j: int| 0 <= i < j < final(entries)@.len() ==> text_le(
            folded(#[trigger] final(entries)@[i].name@, true),
            folded(#[trigger] final(entries)@[j].name@, true),
        ),
{
    let ghost xs = views(entries@);
    let mut keys: Vec<Vec<char>> = Vec::new();
    let mut i: usize = 0;
    while i < entries.len()
        invariant
            views(entries@) == xs,
            i <= entries@.len(),
            keys@.len() == i,
            forall|j: int| 0 <= j < i ==> (#[trigger] keys@[j])@ == folded(entries@[j].name@, true),
        decreases entries@.len() - i,
    {
        let lowered = fold_case(&entries[i].name, true);
        keys.push(crate::text::chars_of(lowered.as_str()));
        i = i + 1;
    }
    let mut taken: Vec<Choice> = Vec::new();
    std::mem::swap(entries, &mut taken);
    proof {
        assert(zip_keys(views(taken@), char_views(keys@)) =~= lowered_names(xs));
    }
    let mut sorted = sort_by_text(taken, keys);
    std::mem::swap(entries, &mut sorted);
    proof {
        lemma_alpha_sorted_in_order(xs);
        assert forall|i: int, j: int| 0 <= i < j < entries@.len() implies text_le(
            folded(#[trigger] entries@[i].name@, true),
            folded(#[trigger] entries@[j].name@, true),
        ) by {
            assert(entries@[i]@ == views(entries@)[i]);
            assert(entries@[j]@ == views(entries@)[j]);
        }
    }
}

/// Alphabetically sorted choices have non-decreasing lower-cased names.
pub proof fn lemma_alpha_sorted_in_order(xs: Seq<ChoiceView>)
    ensures
        alpha_sorted(xs).len() == xs.len(),
        forall|i: int, j: int| 0 <= i < j < xs.len() ==> text_le(
            folded((#[trigger] alpha_sorted(xs)[i]).name, true),
            folded((#[trigger] alpha_sorted(xs)[j]).name, true),
        ),
{
    let s = stable_sort(lowered_names(xs), by_text());
    lemma_text_order();
    lemma_stable_sort(lowered_names(xs), by_text());
    assert forall|i: int| 0 <= i < s.len() implies (#[trigger] s[i]).1 == folded(s[i].0.name, true) by {
        assert(lowered_names(xs).contains(s[i]));
    }
    assert forall|i: int, j: int| 0 <= i < j < xs.len() implies text_le(
        folded((#[trigger] alpha_sorted(xs)[i]).name, true),
        folded((#[trigger] alpha_sorted(xs)[j]).name, true),
    ) by {
        assert(alpha_sorted(xs)[i] == s[i].0);
        assert(alpha_sorted(xs)[j] == s[j].0);
        assert(by_text()(s[i].1, s[j].1));
    }
}

/// The value of the choice at `position` in the list as shown.
pub fn selected_value(entries: &Vec<Choice>, position: usize) -> (r: String)
    requires
        position < entries@.len(),
    ensures
        r@ == entries@[position as int].value@,
{
    entries[position].value.clone()
}

/// Sorting by rank keeps every choice, as many times as it occurs.
pub proof fn law_sort_keeps_choices(xs: Seq<ChoiceView>, q: Seq<char>, insensitive: bool)
    ensures
        sorted_choices(xs, q, insensitive).to_multiset() == xs.to_multiset(),
{
    lemma_stable_sort_items(ranked(xs, q, insensitive), by_rank());
    assert(items_of(ranked(xs, q, insensitive)) =~= xs);
}

/// Sorting alphabetically keeps every choice, as many times as it occurs.
pub proof fn law_alpha_sort_keeps_choices(xs: Seq<ChoiceView>)
    ensures
        alpha_sorted(xs).to_multiset() == xs.to_multiset(),
{
    lemma_stable_sort_items(lowered_names(xs), by_text());
    assert(items_of(lowered_names(xs)) =~= xs);
}

} // verus!
