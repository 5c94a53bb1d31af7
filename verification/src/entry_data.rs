//! The term-count table of one file or one aggregated directory.

use vstd::prelude::*;
use crate::histogram::histogram_text;
use crate::index::TextIndex;
use crate::sorted::{lemma_listing_len, lemma_sorted_unique, within};
use crate::term::{
    intern, lemma_text_before_asymmetric, lemma_text_before_total, lemma_text_before_transitive,
    same_term, term_clone, term_str, term_text, text_before, text_less, Term,
};

verus! {

/// One row of a table: a term and how often it was seen.
#[derive(Debug)]
pub struct TermCount {
    pub term: Term,
    pub count: u64,
}

impl Clone for TermCount {
    /// A row with the same term and the same count.
    fn clone(&self) -> (copy: Self)
        ensures
            row_view(copy) == row_view(*self),
    {
        TermCount { term: term_clone(&self.term), count: self.count }
    }
}

impl TermCount {
    /// The text of the row's term.
    pub fn text(&self) -> (text: &str)
        ensures
            text@ == term_text(self.term),
    {
        term_str(&self.term).as_str()
    }
}

/// The point-wise sum of two count tables.
pub open spec fn merged(a: Map<Seq<char>, nat>, b: Map<Seq<char>, nat>) -> Map<Seq<char>, nat> {
    Map::new(
        |t: Seq<char>| a.contains_key(t) || b.contains_key(t),
        |t: Seq<char>| table_count(a, t) + table_count(b, t),
    )
}

/// The count of `t` in a table: zero where the table does not hold it.
pub open spec fn table_count(a: Map<Seq<char>, nat>, t: Seq<char>) -> nat {
    if a.contains_key(t) {
        a[t]
    } else {
        0
    }
}

/// Every row counts at least one, and no text stands in two rows.
spec fn rows_wf(rows: Seq<TermCount>) -> bool {
    &&& forall|i: int| 0 <= i < rows.len() ==> (#[trigger] rows[i]).count >= 1
    &&& forall|i: int, j: int|
        0 <= i < j < rows.len() ==> term_text(#[trigger] rows[i].term) != term_text(
            #[trigger] rows[j].term,
        )
}

/// Some row holds the text `t`.
spec fn rows_has(rows: Seq<TermCount>, t: Seq<char>) -> bool {
    exists|i: int| 0 <= i < rows.len() && term_text(#[trigger] rows[i].term) == t
}

/// A row that holds the text `t`, where there is one.
spec fn rows_index(rows: Seq<TermCount>, t: Seq<char>) -> int {
    choose|i: int| 0 <= i < rows.len() && term_text(#[trigger] rows[i].term) == t
}

/// The count that `rows` give the text `t`: zero where no row holds it.
spec fn rows_count(rows: Seq<TermCount>, t: Seq<char>) -> nat {
    if rows_has(rows, t) {
        rows[rows_index(rows, t)].count as nat
    } else {
        0
    }
}

/// In well-formed rows a text is found in its own row and nowhere else.
proof fn lemma_rows_count_at(rows: Seq<TermCount>, i: int)
    requires
        rows_wf(rows),
        0 <= i < rows.len(),
    ensures
        rows_has(rows, term_text(rows[i].term)),
        rows_index(rows, term_text(rows[i].term)) == i,
        rows_count(rows, term_text(rows[i].term)) == rows[i].count,
{
    let t = term_text(rows[i].term);
    assert(0 <= i < rows.len() && term_text(rows[i].term) == t);
    let j = rows_index(rows, t);
    assert(0 <= j < rows.len() && term_text(rows[j].term) == t);
    if j < i {
        assert(term_text(rows[j].term) != term_text(rows[i].term));
    } else if i < j {
        assert(term_text(rows[i].term) != term_text(rows[j].term));
    }
}

/// What a prefix of the rows counts, one row longer.
proof fn lemma_rows_count_step(rows: Seq<TermCount>, k: int, t: Seq<char>)
    requires
        rows_wf(rows),
        0 <= k < rows.len(),
    ensures
        rows_wf(rows.take(k)),
        rows_wf(rows.take(k + 1)),
        rows_count(rows.take(k + 1), t) == rows_count(rows.take(k), t) + (if term_text(
            rows[k].term,
        ) == t {
            rows[k].count as nat
        } else {
            0
        }),
{
    let short = rows.take(k);
    let long = rows.take(k + 1);
    assert forall|i: int| 0 <= i < short.len() implies short[i] == rows[i] by {}
    assert forall|i: int| 0 <= i < long.len() implies long[i] == rows[i] by {}
    if term_text(rows[k].term) == t {
        assert(long[k] == rows[k]);
        lemma_rows_count_at(long, k);
        if rows_has(short, t) {
            let j = rows_index(short, t);
            assert(term_text(rows[j].term) != term_text(rows[k].term));
        }
    } else if rows_has(short, t) {
        let j = rows_index(short, t);
        lemma_rows_count_at(short, j);
        assert(long[j] == short[j]);
        lemma_rows_count_at(long, j);
    } else if rows_has(long, t) {
        let j = rows_index(long, t);
        assert(short[j] == long[j]);
    }
}

/// What a row says: the term's text and its count.
pub open spec fn row_view(row: TermCount) -> (Seq<char>, nat) {
    (term_text(row.term), row.count as nat)
}

/// The rows of a vector as texts and counts.
pub open spec fn rows_view(rows: Seq<TermCount>) -> Seq<(Seq<char>, nat)> {
    Seq::new(rows.len(), |i: int| row_view(rows[i]))
}

/// The ranking order: the higher count first, and of equal counts the
/// lexically smaller text.
pub open spec fn ranks_before(a: (Seq<char>, nat), b: (Seq<char>, nat)) -> bool {
    a.1 > b.1 || (a.1 == b.1 && text_before(a.0, b.0))
}

/// `ranked` lists the table `counts`: every row is an entry of the table,
/// every entry has a row, and each row ranks strictly before all later ones.
pub open spec fn is_ranking(ranked: Seq<(Seq<char>, nat)>, counts: Map<Seq<char>, nat>) -> bool {
    &&& forall|i: int|
        0 <= i < ranked.len() ==> counts.contains_key((#[trigger] ranked[i]).0) && counts[ranked[i].0]
            == ranked[i].1
    &&& forall|t: Seq<char>| #[trigger]
        counts.contains_key(t) ==> exists|i: int| 0 <= i < ranked.len() && (#[trigger] ranked[i]).0 == t
    &&& forall|i: int, j: int|
        0 <= i < j < ranked.len() ==> ranks_before(#[trigger] ranked[i], #[trigger] ranked[j])
}

/// The ranking of a table: its entries from the highest count down, equal
/// counts in lexical order. A table has exactly one.
pub open spec fn ranking_of(counts: Map<Seq<char>, nat>) -> Seq<(Seq<char>, nat)> {
    choose|ranked: Seq<(Seq<char>, nat)>| is_ranking(ranked, counts)
}

/// A table has at most one ranking: the order is fixed down to the last tie.
pub proof fn lemma_ranking_unique(
    a: Seq<(Seq<char>, nat)>,
    b: Seq<(Seq<char>, nat)>,
    counts: Map<Seq<char>, nat>,
)
    requires
        is_ranking(a, counts),
        is_ranking(b, counts),
    ensures
        a == b,
        a == ranking_of(counts),
{
    let before = |x: (Seq<char>, nat), y: (Seq<char>, nat)| ranks_before(x, y);
    assert forall|x: (Seq<char>, nat), y: (Seq<char>, nat)| !(#[trigger] before(x, y) && before(
        y,
        x,
    )) by {
        lemma_ranks_before_total(x, y);
    }
    lemma_ranking_within(a, b, counts);
    lemma_ranking_within(b, a, counts);
    lemma_sorted_unique(a, b, before);
    let c = ranking_of(counts);
    lemma_ranking_within(a, c, counts);
    lemma_ranking_within(c, a, counts);
    lemma_sorted_unique(a, c, before);
}

/// A ranking has one row for each term of the table.
pub proof fn lemma_ranking_len(ranked: Seq<(Seq<char>, nat)>, counts: Map<Seq<char>, nat>)
    requires
        is_ranking(ranked, counts),
    ensures
        counts.dom().finite(),
        ranked.len() == counts.dom().len(),
{
    let texts = Seq::new(ranked.len(), |i: int| ranked[i].0);
    assert forall|i: int, j: int|
        0 <= i < texts.len() && 0 <= j < texts.len() && i != j implies texts[i] != texts[j] by {
        lemma_ranks_before_total(ranked[i], ranked[j]);
        if i < j {
            assert(ranks_before(ranked[i], ranked[j]));
        } else {
            assert(ranks_before(ranked[j], ranked[i]));
        }
        if texts[i] == texts[j] {
            assert(ranked[i] == ranked[j]);
        }
    }
    assert forall|i: int| 0 <= i < texts.len() implies counts.dom().contains(
        #[trigger] texts[i],
    ) by {
        assert(counts.contains_key(ranked[i].0));
    }
    assert forall|t: Seq<char>| #[trigger] counts.dom().contains(t) implies texts.contains(t) by {
        assert(counts.contains_key(t));
        let i = choose|i: int| 0 <= i < ranked.len() && (#[trigger] ranked[i]).0 == t;
        assert(texts[i] == t);
    }
    lemma_listing_len(texts, counts.dom());
}

/// Every row of one ranking of a table occurs in any other.
pub proof fn lemma_ranking_within(
    a: Seq<(Seq<char>, nat)>,
    b: Seq<(Seq<char>, nat)>,
    counts: Map<Seq<char>, nat>,
)
    requires
        is_ranking(a, counts),
        is_ranking(b, counts),
    ensures
        within(a, b),
{
    assert forall|i: int| 0 <= i < a.len() implies b.contains(#[trigger] a[i]) by {
        let t = a[i].0;
        assert(counts.contains_key(t));
        let j = choose|j: int| 0 <= j < b.len() && (#[trigger] b[j]).0 == t;
        assert(b[j] == a[i]);
    }
}

/// The ranking order is transitive.
pub proof fn lemma_ranks_before_transitive(
    a: (Seq<char>, nat),
    b: (Seq<char>, nat),
    c: (Seq<char>, nat),
)
    requires
        ranks_before(a, b),
        ranks_before(b, c),
    ensures
        ranks_before(a, c),
{
    if a.1 == b.1 && b.1 == c.1 {
        lemma_text_before_transitive(a.0, b.0, c.0);
    }
}

/// Of two rows with different texts one ranks before the other, never both.
pub proof fn lemma_ranks_before_total(a: (Seq<char>, nat), b: (Seq<char>, nat))
    ensures
        a.0 == b.0 || ranks_before(a, b) || ranks_before(b, a),
        !(ranks_before(a, b) && ranks_before(b, a)),
{
    lemma_text_before_total(a.0, b.0);
    lemma_text_before_asymmetric(a.0, b.0);
}

/// Some position of `order` holds the index `x`.
pub open spec fn holds_index(order: Seq<usize>, x: int) -> bool {
    exists|p: int| 0 <= p < order.len() && #[trigger] order[p] == x
}

/// A term-count table bound to one path.
#[derive(Debug)]
pub struct EntryData {
    path: String,
    rows: Vec<TermCount>,
    index: TextIndex,
}

/// The texts of the rows, in storage order.
spec fn row_texts(rows: Seq<TermCount>) -> Seq<Seq<char>> {
    Seq::new(rows.len(), |i: int| term_text(rows[i].term))
}

/// What an entry is: its path and its table.
pub ghost struct EntryView {
    pub path: Seq<char>,
    pub counts: Map<Seq<char>, nat>,
}

impl View for EntryData {
    type V = EntryView;

    closed spec fn view(&self) -> EntryView {
        EntryView {
            path: self.path@,
            counts: Map::new(
                |t: Seq<char>| rows_has(self.rows@, t),
                |t: Seq<char>| rows_count(self.rows@, t),
            ),
        }
    }
}

impl Clone for EntryData {
    /// A table with the same path and the same counts.
    fn clone(&self) -> (copy: Self)
        ensures
            copy@.path == self@.path,
            self.wf() ==> copy.wf() && copy@ == self@,
    {
        let mut rows: Vec<TermCount> = Vec::new();
        let mut index = TextIndex::new();
        let mut i: usize = 0;
        assert(row_texts(rows@) =~= Seq::<Seq<char>>::empty());
        while i < self.rows.len()
            invariant
                i <= self.rows@.len(),
                rows@.len() == i,
                forall|k: int| 0 <= k < i ==> row_view(#[trigger] rows@[k]) == row_view(self.rows@[k]),
                index.covers(row_texts(rows@)),
            decreases self.rows@.len() - i,
        {
            let row = self.rows[i].clone();
            let ghost texts = row_texts(rows@);
            index.add(row.text(), i, Ghost(texts));
            rows.push(row);
            i += 1;
            assert(row_texts(rows@) =~= texts.push(term_text(row.term)));
        }
        let copy = EntryData { path: self.path.clone(), rows, index };
        proof {
            if self.wf() {
                assert forall|k: int| 0 <= k < copy.rows@.len() implies (#[trigger] copy.rows@[k]).count
                    >= 1 by {
                    assert(row_view(copy.rows@[k]) == row_view(self.rows@[k]));
                }
                assert forall|a: int, b: int| 0 <= a < b < copy.rows@.len() implies term_text(
                    #[trigger] copy.rows@[a].term,
                ) != term_text(#[trigger] copy.rows@[b].term) by {
                    assert(row_view(copy.rows@[a]) == row_view(self.rows@[a]));
                    assert(row_view(copy.rows@[b]) == row_view(self.rows@[b]));
                    assert(term_text(self.rows@[a].term) != term_text(self.rows@[b].term));
                }
                assert forall|t: Seq<char>| rows_has(copy.rows@, t) == rows_has(self.rows@, t) by {
                    if rows_has(copy.rows@, t) {
                        let k = rows_index(copy.rows@, t);
                        assert(row_view(copy.rows@[k]) == row_view(self.rows@[k]));
                        assert(term_text(self.rows@[k].term) == t);
                    }
                    if rows_has(self.rows@, t) {
                        let k = rows_index(self.rows@, t);
                        assert(row_view(copy.rows@[k]) == row_view(self.rows@[k]));
                        assert(term_text(copy.rows@[k].term) == t);
                    }
                }
                assert forall|t: Seq<char>| rows_has(copy.rows@, t) implies rows_count(
                    copy.rows@,
                    t,
                ) == rows_count(self.rows@, t) by {
                    let k = rows_index(copy.rows@, t);
                    assert(row_view(copy.rows@[k]) == row_view(self.rows@[k]));
                    lemma_rows_count_at(copy.rows@, k);
                    lemma_rows_count_at(self.rows@, k);
                }
                assert(copy@.counts =~= self@.counts);
            }
        }
        copy
    }
}

impl Default for EntryData {
    /// The empty table bound to the empty path.
    fn default() -> (entry: Self)
        ensures
            entry.wf(),
            entry@.path == Seq::<char>::empty(),
            entry@.counts == Map::<Seq<char>, nat>::empty(),
    {
        let entry = EntryData { path: String::new(), rows: Vec::new(), index: TextIndex::new() };
        assert(row_texts(entry.rows@) =~= Seq::<Seq<char>>::empty());
        assert(entry@.counts =~= Map::<Seq<char>, nat>::empty());
        entry
    }
}

impl EntryData {
    /// The table's invariant: counts are positive and no term occurs twice.
    pub closed spec fn wf(&self) -> bool {
        rows_wf(self.rows@) && self.index.covers(row_texts(self.rows@))
    }

    /// The count of the text `t`, zero where the table does not hold it.
    pub open spec fn count_of(&self, t: Seq<char>) -> nat {
        table_count(self@.counts, t)
    }

    /// How the view follows from the rows.
    proof fn lemma_rows(&self)
        requires
            self.wf(),
        ensures
            forall|t: Seq<char>| #[trigger] self.count_of(t) == rows_count(self.rows@, t),
            forall|t: Seq<char>| #[trigger] self@.counts.contains_key(t) == rows_has(self.rows@, t),
            self@.counts.dom().finite(),
            self@.counts.dom().len() == self.rows@.len(),
    {
        let texts = Seq::new(self.rows@.len(), |i: int| term_text(self.rows@[i].term));
        assert forall|i: int, j: int|
            0 <= i < texts.len() && 0 <= j < texts.len() && i != j implies texts[i]
            != texts[j] by {
            if i < j {
                assert(term_text(self.rows@[i].term) != term_text(self.rows@[j].term));
            } else {
                assert(term_text(self.rows@[j].term) != term_text(self.rows@[i].term));
            }
        }
        assert forall|i: int| 0 <= i < texts.len() implies self@.counts.dom().contains(
            #[trigger] texts[i],
        ) by {
            lemma_rows_count_at(self.rows@, i);
        }
        assert forall|t: Seq<char>| #[trigger]
            self@.counts.dom().contains(t) implies texts.contains(t) by {
            let i = rows_index(self.rows@, t);
            assert(texts[i] == t);
        }
        lemma_listing_len(texts, self@.counts.dom());
    }

    /// What holds of every well-formed table: it has finitely many terms, and
    /// every count is at least one and fits `u64`.
    pub proof fn lemma_view(&self)
        requires
            self.wf(),
        ensures
            self@.counts.dom().finite(),
            forall|t: Seq<char>| #[trigger]
                self@.counts.contains_key(t) ==> 1 <= self@.counts[t] <= u64::MAX,
            forall|t: Seq<char>| #[trigger] self.count_of(t) <= u64::MAX,
    {
        self.lemma_rows();
        assert forall|t: Seq<char>| #[trigger] self@.counts.contains_key(t) implies 1
            <= self@.counts[t] <= u64::MAX by {
            let i = rows_index(self.rows@, t);
            lemma_rows_count_at(self.rows@, i);
        }
    }

    /// An empty table bound to `path`.
    pub fn new(path: &str) -> (entry: Self)
        ensures
            entry.wf(),
            entry@.path == path@,
            entry@.counts == Map::<Seq<char>, nat>::empty(),
    {
        let entry = EntryData {
            path: String::from_str(path),
            rows: Vec::new(),
            index: TextIndex::new(),
        };
        assert(row_texts(entry.rows@) =~= Seq::<Seq<char>>::empty());
        assert(entry@.counts =~= Map::<Seq<char>, nat>::empty());
        entry
    }

    /// The path that the table is bound to.
    pub fn path(&self) -> (path: &str)
        ensures
            path@ == self@.path,
    {
        self.path.as_str()
    }

    /// Whether the table is bound to `path`.
    pub fn is_at(&self, path: &String) -> (at: bool)
        ensures
            at == (self@.path == path@),
    {
        self.path == *path
    }

    /// Whether every count of `other` can be added to this table's count of
    /// the same term within `u64`.
    pub fn can_tot_up(&self, other: &Self) -> (fits: bool)
        requires
            self.wf(),
            other.wf(),
        ensures
            fits == (forall|t: Seq<char>|
                self.count_of(t) + #[trigger] other.count_of(t) <= u64::MAX),
    {
        let mut k: usize = 0;
        while k < other.rows.len()
            invariant
                k <= other.rows@.len(),
                self.wf(),
                other.wf(),
                forall|j: int|
                    0 <= j < k ==> self.count_of(term_text(other.rows@[j].term))
                        + (#[trigger] other.rows@[j]).count <= u64::MAX,
            decreases other.rows@.len() - k,
        {
            let row = &other.rows[k];
            proof {
                self.lemma_view();
                other.lemma_view();
                lemma_rows_count_at(other.rows@, k as int);
            }
            match self.find(&row.term) {
                Some(i) => {
                    proof {
                        lemma_rows_count_at(self.rows@, i as int);
                    }
                    if self.rows[i].count > u64::MAX - row.count {
                        assert(self.count_of(term_text(row.term)) + other.count_of(
                            term_text(row.term),
                        ) > u64::MAX);
                        return false;
                    }
                },
                None => {},
            }
            k += 1;
        }
        proof {
            self.lemma_view();
            other.lemma_view();
            assert forall|t: Seq<char>|
                self.count_of(t) + #[trigger] other.count_of(t) <= u64::MAX by {
                if rows_has(other.rows@, t) {
                    let j = rows_index(other.rows@, t);
                    lemma_rows_count_at(other.rows@, j);
                    assert(self.count_of(term_text(other.rows@[j].term)) + other.rows@[j].count
                        <= u64::MAX);
                }
            }
        }
        true
    }

    /// The number of distinct terms.
    pub fn len(&self) -> (n: usize)
        requires
            self.wf(),
        ensures
            self@.counts.dom().finite(),
            n == self@.counts.dom().len(),
    {
        proof {
            self.lemma_rows();
        }
        self.rows.len()
    }

    /// The row that holds `term`, if any.
    fn find(&self, term: &Term) -> (at: Option<usize>)
        requires
            self.wf(),
        ensures
            match at {
                Some(i) => i < self.rows@.len() && term_text(self.rows@[i as int].term) == term_text(
                    *term,
                ),
                None => !rows_has(self.rows@, term_text(*term)),
            },
    {
        let ghost texts = row_texts(self.rows@);
        match self.index.candidates(term_str(term).as_str(), Ghost(texts)) {
            Some(places) => {
                let mut j: usize = 0;
                while j < places.len()
                    invariant
                        j <= places@.len(),
                        texts == row_texts(self.rows@),
                        forall|k: int| 0 <= k < places@.len() ==> #[trigger] places@[k] < texts.len(),
                        forall|i: int|
                            0 <= i < texts.len() && #[trigger] texts[i] == term_text(*term)
                                ==> holds_index(places@, i),
                        forall|k: int|
                            0 <= k < j ==> term_text(self.rows@[#[trigger] places@[k] as int].term)
                                != term_text(*term),
                    decreases places@.len() - j,
                {
                    let i = places[j];
                    if same_term(&self.rows[i].term, term) {
                        return Some(i);
                    }
                    j += 1;
                }
                proof {
                    if rows_has(self.rows@, term_text(*term)) {
                        let i = rows_index(self.rows@, term_text(*term));
                        assert(texts[i] == term_text(*term));
                        assert(holds_index(places@, i));
                        let k = choose|k: int| 0 <= k < places@.len() && #[trigger] places@[k] == i;
                        assert(term_text(self.rows@[places@[k] as int].term) != term_text(*term));
                    }
                }
                None
            },
            None => {
                proof {
                    if rows_has(self.rows@, term_text(*term)) {
                        let i = rows_index(self.rows@, term_text(*term));
                        assert(texts[i] == term_text(*term));
                    }
                }
                None
            },
        }
    }

    /// The count of `text`, zero where it was never seen.
    pub fn count(&self, text: &str) -> (n: u64)
        requires
            self.wf(),
        ensures
            n == self.count_of(text@),
    {
        let term = intern(text);
        match self.find(&term) {
            Some(i) => {
                proof {
                    lemma_rows_count_at(self.rows@, i as int);
                }
                self.rows[i].count
            },
            None => 0,
        }
    }

    /// Adds `amount` to the count of `term`, which starts at zero.
    fn add_count(&mut self, term: &Term, amount: u64)
        requires
            old(self).wf(),
            amount >= 1,
            old(self).count_of(term_text(*term)) + amount <= u64::MAX,
        ensures
            final(self).wf(),
            final(self)@.path == old(self)@.path,
            forall|t: Seq<char>| #[trigger]
                final(self).count_of(t) == old(self).count_of(t) + (if t == term_text(*term) {
                    amount as nat
                } else {
                    0
                }),
    {
        let ghost before = self.rows@;
        let ghost text = term_text(*term);
        match self.find(term) {
            Some(i) => {
                proof {
                    lemma_rows_count_at(before, i as int);
                }
                let sum: u64 = self.rows[i].count + amount;
                let row = TermCount { term: term_clone(term), count: sum };
                self.rows.set(i, row);
                proof {
                    let after = self.rows@;
                    assert(row_texts(after) =~= row_texts(before));
                    assert forall|a: int, b: int| 0 <= a < b < after.len() implies term_text(
                        #[trigger] after[a].term,
                    ) != term_text(#[trigger] after[b].term) by {
                        assert(term_text(after[a].term) == term_text(before[a].term));
                        assert(term_text(after[b].term) == term_text(before[b].term));
                    }
                    assert forall|t: Seq<char>| #[trigger]
                        rows_count(after, t) == rows_count(before, t) + (if t == text {
                            amount as nat
                        } else {
                            0
                        }) by {
                        if rows_has(before, t) {
                            let j = rows_index(before, t);
                            lemma_rows_count_at(before, j);
                            assert(term_text(after[j].term) == t);
                            lemma_rows_count_at(after, j);
                        } else if rows_has(after, t) {
                            let j = rows_index(after, t);
                            assert(term_text(before[j].term) == t);
                        }
                    }
                }
            },
            None => {
                let row = TermCount { term: term_clone(term), count: amount };
                self.index.add(row.text(), self.rows.len(), Ghost(row_texts(before)));
                self.rows.push(row);
                proof {
                    let after = self.rows@;
                    assert(row_texts(after) =~= row_texts(before).push(text));
                    assert(before =~= after.take(before.len() as int));
                    assert(after =~= after.take(after.len() as int));
                    assert forall|a: int, b: int| 0 <= a < b < after.len() implies term_text(
                        #[trigger] after[a].term,
                    ) != term_text(#[trigger] after[b].term) by {
                        if b < before.len() {
                            assert(after[a] == before[a] && after[b] == before[b]);
                        } else {
                            assert(after[a] == before[a]);
                        }
                    }
                    assert forall|t: Seq<char>| #[trigger]
                        rows_count(after, t) == rows_count(before, t) + (if t == text {
                            amount as nat
                        } else {
                            0
                        }) by {
                        lemma_rows_count_step(after, before.len() as int, t);
                    }
                }
            },
        }
        proof {
            assert forall|t: Seq<char>| #[trigger]
                self.count_of(t) == old(self).count_of(t) + (if t == text {
                    amount as nat
                } else {
                    0
                }) by {
                assert(rows_count(self.rows@, t) == rows_count(before, t) + (if t == text {
                    amount as nat
                } else {
                    0
                }));
            }
        }
    }

    /// Adds every count of `other` to this table, term by term.
    pub fn tot_up(&mut self, other: &Self)
        requires
            old(self).wf(),
            other.wf(),
            forall|t: Seq<char>| old(self).count_of(t) + #[trigger] other.count_of(t) <= u64::MAX,
        ensures
            final(self).wf(),
            final(self)@.path == old(self)@.path,
            final(self)@.counts == merged(old(self)@.counts, other@.counts),
    {
        let mut k: usize = 0;
        proof {
            assert forall|t: Seq<char>| rows_count(other.rows@.take(0), t) == 0 by {}
        }
        while k < other.rows.len()
            invariant
                k <= other.rows@.len(),
                self.wf(),
                other.wf(),
                self@.path == old(self)@.path,
                forall|t: Seq<char>| old(self).count_of(t) + #[trigger] other.count_of(t) <= u64::MAX,
                forall|t: Seq<char>| #[trigger]
                    self.count_of(t) == old(self).count_of(t) + rows_count(
                        other.rows@.take(k as int),
                        t,
                    ),
            decreases other.rows@.len() - k,
        {
            let ghost mid = *self;
            let row = &other.rows[k];
            proof {
                let text = term_text(row.term);
                lemma_rows_count_at(other.rows@, k as int);
                lemma_rows_count_step(other.rows@, k as int, text);
                assert(other.count_of(text) == row.count);
                assert(self.count_of(text) == old(self).count_of(text) + rows_count(
                    other.rows@.take(k as int),
                    text,
                ));
                if rows_has(other.rows@.take(k as int), text) {
                    let j = rows_index(other.rows@.take(k as int), text);
                    assert(other.rows@.take(k as int)[j] == other.rows@[j]);
                }
            }
            self.add_count(&row.term, row.count);
            proof {
                assert forall|t: Seq<char>| #[trigger]
                    self.count_of(t) == old(self).count_of(t) + rows_count(
                        other.rows@.take(k + 1),
                        t,
                    ) by {
                    lemma_rows_count_step(other.rows@, k as int, t);
                    assert(mid.count_of(t) == old(self).count_of(t) + rows_count(
                        other.rows@.take(k as int),
                        t,
                    ));
                }
            }
            k += 1;
        }
        proof {
            assert(other.rows@.take(k as int) =~= other.rows@);
            self.lemma_view();
            other.lemma_view();
            old(self).lemma_view();
            let sum = merged(old(self)@.counts, other@.counts);
            assert forall|t: Seq<char>| self@.counts.contains_key(t) == sum.contains_key(t) by {
                assert(self.count_of(t) == old(self).count_of(t) + other.count_of(t));
            }
            assert forall|t: Seq<char>| self@.counts.contains_key(t) implies self@.counts[t]
                == sum[t] by {
                assert(self.count_of(t) == old(self).count_of(t) + other.count_of(t));
            }
            assert(self@.counts =~= sum);
        }
    }

    /// Whether the row at `a` ranks before the row at `b`.
    fn row_ranks_before(&self, a: usize, b: usize) -> (before: bool)
        requires
            a < self.rows@.len(),
            b < self.rows@.len(),
        ensures
            before == ranks_before(row_view(self.rows@[a as int]), row_view(self.rows@[b as int])),
    {
        let x = &self.rows[a];
        let y = &self.rows[b];
        x.count > y.count || (x.count == y.count && text_less(
            term_str(&x.term).as_str(),
            term_str(&y.term).as_str(),
        ))
    }

    /// The rows by descending count, equal counts in lexical order of the
    /// terms.
    pub fn sorted_term_counts(&self) -> (ranked: Vec<TermCount>)
        requires
            self.wf(),
        ensures
            ranked@.len() == self@.counts.dom().len(),
            is_ranking(rows_view(ranked@), self@.counts),
            rows_view(ranked@) == ranking_of(self@.counts),
            forall|i: int| 0 <= i < ranked@.len() ==> (#[trigger] ranked@[i]).count >= 1,
    {
        let n = self.rows.len();
        let mut order: Vec<usize> = Vec::new();
        let mut i: usize = 0;
        while i < n
            invariant
                n == self.rows@.len(),
                i <= n,
                order@.len() == i,
                forall|p: int| 0 <= p < i ==> order@[p] == p,
            decreases n - i,
        {
            order.push(i);
            i += 1;
        }
        assert forall|x: int| 0 <= x < n implies #[trigger] holds_index(order@, x) by {
            assert(order@[x] == x);
        }
        i = 0;
        while i < n
            invariant
                n == self.rows@.len(),
                self.wf(),
                i <= n,
                order@.len() == n,
                forall|p: int| 0 <= p < n ==> #[trigger] order@[p] < n,
                forall|x: int| 0 <= x < n ==> #[trigger] holds_index(order@, x),
                forall|p: int, q: int|
                    0 <= p < i && p < q < n ==> ranks_before(
                        row_view(self.rows@[#[trigger] order@[p] as int]),
                        row_view(self.rows@[#[trigger] order@[q] as int]),
                    ),
                forall|p: int, q: int|
                    0 <= p < q < n ==> #[trigger] order@[p] != #[trigger] order@[q],
            decreases n - i,
        {
            let mut best: usize = i;
            let mut j: usize = i + 1;
            while j < n
                invariant
                    n == self.rows@.len(),
                    self.wf(),
                    i < n,
                    i <= best < j <= n,
                    order@.len() == n,
                    forall|p: int| 0 <= p < n ==> #[trigger] order@[p] < n,
                    forall|p: int, q: int|
                        0 <= p < q < n ==> #[trigger] order@[p] != #[trigger] order@[q],
                    forall|q: int|
                        i <= q < j && q != best ==> ranks_before(
                            row_view(self.rows@[order@[best as int] as int]),
                            row_view(self.rows@[#[trigger] order@[q] as int]),
                        ),
                decreases n - j,
            {
                let ghost old_best = best;
                let better = self.row_ranks_before(order[j], order[best]);
                if better {
                    best = j;
                }
                proof {
                    let rj = row_view(self.rows@[order@[j as int] as int]);
                    let rb = row_view(self.rows@[order@[old_best as int] as int]);
                    assert(order@[j as int] != order@[old_best as int]);
                    assert(rj.0 != rb.0) by {
                        let a = order@[j as int] as int;
                        let b = order@[old_best as int] as int;
                        if a < b {
                            assert(term_text(self.rows@[a].term) != term_text(self.rows@[b].term));
                        } else {
                            assert(term_text(self.rows@[b].term) != term_text(self.rows@[a].term));
                        }
                    }
                    lemma_ranks_before_total(rj, rb);
                    if better {
                        assert forall|q: int| i <= q < j + 1 && q != best implies ranks_before(
                            row_view(self.rows@[order@[best as int] as int]),
                            row_view(self.rows@[#[trigger] order@[q] as int]),
                        ) by {
                            if q != old_best {
                                lemma_ranks_before_transitive(
                                    rj,
                                    rb,
                                    row_view(self.rows@[order@[q] as int]),
                                );
                            }
                        }
                    }
                }
                j += 1;
            }
            let ghost before = order@;
            let at_i = order[i];
            let at_best = order[best];
            order.set(i, at_best);
            order.set(best, at_i);
            proof {
                let after = order@;
                assert forall|x: int| 0 <= x < n implies #[trigger] holds_index(after, x) by {
                    assert(holds_index(before, x));
                    let p = choose|p: int| 0 <= p < n && #[trigger] before[p] == x;
                    if p == i {
                        assert(after[best as int] == x);
                    } else if p == best {
                        assert(after[i as int] == x);
                    } else {
                        assert(after[p] == x);
                    }
                }
                assert forall|p: int, q: int| 0 <= p < q < n implies #[trigger] after[p]
                    != #[trigger] after[q] by {
                    let pp = if p == i { best as int } else if p == best { i as int } else { p };
                    let qq = if q == i { best as int } else if q == best { i as int } else { q };
                    assert(after[p] == before[pp] && after[q] == before[qq]);
                    if pp < qq {
                        assert(before[pp] != before[qq]);
                    } else {
                        assert(before[qq] != before[pp]);
                    }
                }
                assert forall|p: int, q: int| 0 <= p < i + 1 && p < q < n implies ranks_before(
                    row_view(self.rows@[#[trigger] after[p] as int]),
                    row_view(self.rows@[#[trigger] after[q] as int]),
                ) by {
                    let qq = if q == i { best as int } else if q == best { i as int } else { q };
                    assert(after[q] == before[qq]);
                    if p < i {
                        assert(after[p] == before[p]);
                        assert(ranks_before(
                            row_view(self.rows@[before[p] as int]),
                            row_view(self.rows@[before[qq] as int]),
                        ));
                    } else {
                        assert(after[p] == before[best as int]);
                        assert(qq != best);
                    }
                }
            }
            i += 1;
        }
        let mut ranked: Vec<TermCount> = Vec::new();
        i = 0;
        while i < n
            invariant
                n == self.rows@.len(),
                i <= n,
                order@.len() == n,
                ranked@.len() == i,
                forall|p: int| 0 <= p < n ==> #[trigger] order@[p] < n,
                forall|p: int|
                    0 <= p < i ==> row_view(#[trigger] ranked@[p]) == row_view(
                        self.rows@[order@[p] as int],
                    ),
            decreases n - i,
        {
            let row = &self.rows[order[i]];
            ranked.push(TermCount { term: term_clone(&row.term), count: row.count });
            i += 1;
        }
        proof {
            let view = rows_view(ranked@);
            self.lemma_rows();
            assert forall|p: int| 0 <= p < view.len() implies self@.counts.contains_key(
                (#[trigger] view[p]).0,
            ) && self@.counts[view[p].0] == view[p].1 by {
                lemma_rows_count_at(self.rows@, order@[p] as int);
                assert(self.count_of(view[p].0) == view[p].1);
            }
            assert forall|t: Seq<char>| #[trigger] self@.counts.contains_key(t) implies exists|p: int|
                0 <= p < view.len() && (#[trigger] view[p]).0 == t by {
                let x = rows_index(self.rows@, t);
                assert(holds_index(order@, x));
                let p = choose|p: int| 0 <= p < n && #[trigger] order@[p] == x;
                assert(view[p].0 == t);
            }
            assert forall|p: int, q: int| 0 <= p < q < view.len() implies ranks_before(
                #[trigger] view[p],
                #[trigger] view[q],
            ) by {
                assert(ranks_before(
                    row_view(self.rows@[order@[p] as int]),
                    row_view(self.rows@[order@[q] as int]),
                ));
            }
            lemma_ranking_unique(view, view, self@.counts);
            lemma_ranking_len(view, self@.counts);
            assert forall|p: int| 0 <= p < ranked@.len() implies (#[trigger] ranked@[p]).count
                >= 1 by {
                assert(row_view(ranked@[p]) == row_view(self.rows@[order@[p] as int]));
                assert(self.rows@[order@[p] as int].count >= 1);
            }
        }
        ranked
    }

    /// The stacked histogram of the table, cut to `height` lines: the path,
    /// then the ranked rows, each bar measured against the highest count. An
    /// empty table gives the line of the path alone.
    pub fn display_histogram(&self, height: usize) -> (text: String)
        requires
            self.wf(),
        ensures
            text@ == histogram_text(self@.path, ranking_of(self@.counts), height as nat),
    {
        let ranked = self.sorted_term_counts();
        crate::histogram::display_histogram(self.path.as_str(), &ranked, height)
    }

    /// Counts one more occurrence of `string`.
    pub fn inc_term(&mut self, string: &str)
        requires
            old(self).wf(),
            old(self).count_of(string@) < u64::MAX,
        ensures
            final(self).wf(),
            final(self)@.path == old(self)@.path,
            final(self)@.counts == old(self)@.counts.insert(
                string@,
                old(self).count_of(string@) + 1,
            ),
    {
        let term = intern(string);
        self.add_count(&term, 1);
        proof {
            let grown = old(self)@.counts.insert(string@, old(self).count_of(string@) + 1);
            assert forall|t: Seq<char>| self@.counts.contains_key(t) == grown.contains_key(
                t,
            ) by {
                assert(self.count_of(t) == old(self).count_of(t) + (if t == string@ {
                    1nat
                } else {
                    0
                }));
                self.lemma_view();
                old(self).lemma_view();
            }
            assert forall|t: Seq<char>| self@.counts.contains_key(t) implies self@.counts[t]
                == grown[t] by {
                assert(self.count_of(t) == old(self).count_of(t) + (if t == string@ {
                    1nat
                } else {
                    0
                }));
            }
            assert(self@.counts =~= grown);
        }
    }
}

} // verus!
