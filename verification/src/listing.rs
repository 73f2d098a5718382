//! Shallow directory listings: which entries of a directory are shown, and in
//! what order.
//!
//! The caller looks at the file system and reports what it saw: whether the
//! path exists and is a directory, and the outcome of reading each entry. The
//! functions here decide what the listing is.

use crate::text::chars_le;
use crate::text::chars_of;
use crate::text::fold_case;
use crate::text::lemma_lex_le_antisymmetric;
use crate::text::lemma_lex_le_reflexive;
use crate::text::lemma_lex_le_total;
use crate::text::lemma_lex_le_transitive;
use crate::text::lex_le;
use crate::text::lowercase;
use vstd::prelude::*;
use vstd::seq_lib::to_multiset_build;
use vstd::seq_lib::to_multiset_insert;
use vstd::seq_lib::to_multiset_remove;
use vstd::string::StrSliceExecFns;
use vstd::string::StringExecFns;

verus! {

/// One child of a listed directory. `children` is the place where a caller
/// keeps the listing of a subdirectory once it has asked for it; a listing
/// itself leaves it unset.
#[derive(Debug, PartialEq, Eq)]
pub struct FileItem {
    pub name: String,
    pub path: String,
    pub is_directory: bool,
    pub children: Option<Vec<FileItem>>,
}

/// The mathematical value of a `FileItem`.
pub struct FileItemView {
    pub name: Seq<char>,
    pub path: Seq<char>,
    pub is_directory: bool,
    pub children: Option<Seq<FileItemView>>,
}

impl View for FileItem {
    type V = FileItemView;

    open spec fn view(&self) -> FileItemView
        decreases self,
    {
        FileItemView {
            name: self.name@,
            path: self.path@,
            is_directory: self.is_directory,
            children: match self.children {
                None => None,
                Some(below) => Some(
                    Seq::new(
                        below@.len(),
                        |i: int|
                            if 0 <= i < below@.len() {
                                below@[i].view()
                            } else {
                                arbitrary()
                            },
                    ),
                ),
            },
        }
    }
}

/// What the file system said of one directory entry: its base name, its full
/// path, and whether it is a directory.
#[derive(Debug, PartialEq, Eq)]
pub struct EntryProbe {
    pub name: String,
    pub path: String,
    pub is_directory: bool,
}

/// The mathematical value of an `EntryProbe`.
pub struct EntryFacts {
    pub name: Seq<char>,
    pub path: Seq<char>,
    pub is_directory: bool,
}

impl View for EntryProbe {
    type V = EntryFacts;

    open spec fn view(&self) -> EntryFacts {
        EntryFacts { name: self.name@, path: self.path@, is_directory: self.is_directory }
    }
}

/// What the file system said of the path that is to be listed.
#[derive(Debug, Clone, Copy, PartialEq, Eq)]
pub struct PathProbe {
    pub exists: bool,
    pub is_directory: bool,
}

/// Why a directory could not be listed.
#[derive(Debug, PartialEq, Eq)]
pub enum ListError {
    /// Nothing exists at the path.
    PathNotFound,
    /// The path exists but names no directory.
    NotADirectory,
    /// The directory, or one of its entries, could not be read; the text is
    /// the file system's own.
    Io(String),
}

/// The mathematical value of a `ListError`.
pub enum ListErrorView {
    PathNotFound,
    NotADirectory,
    Io(Seq<char>),
}

impl View for ListError {
    type V = ListErrorView;

    open spec fn view(&self) -> ListErrorView {
        match self {
            ListError::PathNotFound => ListErrorView::PathNotFound,
            ListError::NotADirectory => ListErrorView::NotADirectory,
            ListError::Io(text) => ListErrorView::Io(text@),
        }
    }
}

/// The text by which an error is reported to the user.
pub open spec fn error_text(error: ListErrorView) -> Seq<char> {
    match error {
        ListErrorView::PathNotFound => "Directory does not exist"@,
        ListErrorView::NotADirectory => "Path is not a directory"@,
        ListErrorView::Io(text) => text,
    }
}

impl ListError {
    /// The text by which this error is reported to the user.
    pub fn message(&self) -> (text: String)
        ensures
            text@ == error_text(self@),
    {
        match self {
            ListError::PathNotFound => String::from_str("Directory does not exist"),
            ListError::NotADirectory => String::from_str("Path is not a directory"),
            ListError::Io(text) => text.clone(),
        }
    }
}

/// An entry together with the text by which its name is compared.
#[derive(Debug, PartialEq, Eq)]
pub struct FoldedEntry {
    pub folded_name: Vec<char>,
    pub entry: EntryProbe,
}

/// The mathematical value of a `FoldedEntry`.
pub struct FoldedFacts {
    pub folded_name: Seq<char>,
    pub entry: EntryFacts,
}

impl View for FoldedEntry {
    type V = FoldedFacts;

    open spec fn view(&self) -> FoldedFacts {
        FoldedFacts { folded_name: self.folded_name@, entry: self.entry@ }
    }
}

/// The values of a sequence of folded entries.
pub open spec fn folded_views(entries: Seq<FoldedEntry>) -> Seq<FoldedFacts> {
    Seq::new(entries.len(), |i: int| entries[i]@)
}

/// The values of a sequence of items.
pub open spec fn item_views(items: Seq<FileItem>) -> Seq<FileItemView> {
    Seq::new(items.len(), |i: int| items[i]@)
}

/// The item that a listing shows for an entry: the entry's own facts, and no
/// children.
pub open spec fn item_of(entry: EntryFacts) -> FileItemView {
    FileItemView {
        name: entry.name,
        path: entry.path,
        is_directory: entry.is_directory,
        children: None,
    }
}

/// The items shown for a sequence of folded entries, one for one.
pub open spec fn items_of(entries: Seq<FoldedFacts>) -> Seq<FileItemView> {
    Seq::new(entries.len(), |i: int| item_of(entries[i].entry))
}

/// The order of a listing: a directory stands before every entry that is none;
/// two directories, and two other entries, stand in the order of their folded
/// names. Entries that agree in both may stand either way round.
pub open spec fn in_order(a: FoldedFacts, b: FoldedFacts) -> bool {
    if a.entry.is_directory != b.entry.is_directory {
        a.entry.is_directory
    } else {
        lex_le(a.folded_name, b.folded_name)
    }
}

/// `sorted` with `e` put behind the last entry that may stand before it.
pub open spec fn insert_in_order(sorted: Seq<FoldedFacts>, e: FoldedFacts) -> Seq<FoldedFacts>
    decreases sorted.len(),
{
    if sorted.len() == 0 || in_order(sorted.last(), e) {
        sorted.push(e)
    } else {
        insert_in_order(sorted.drop_last(), e).push(sorted.last())
    }
}

/// The entries in listing order. Entries between which `in_order` does not
/// decide keep the order in which they were given.
pub open spec fn arranged(entries: Seq<FoldedFacts>) -> Seq<FoldedFacts>
    decreases entries.len(),
{
    if entries.len() == 0 {
        Seq::empty()
    } else {
        insert_in_order(arranged(entries.drop_last()), entries.last())
    }
}

/// Two entries between which the order of a listing does not decide: both are
/// directories or neither is, and their folded names are the same.
pub open spec fn same_rank(a: FoldedFacts, b: FoldedFacts) -> bool {
    in_order(a, b) && in_order(b, a)
}

/// The test for having the rank of `t`.
pub open spec fn of_rank(t: FoldedFacts) -> spec_fn(FoldedFacts) -> bool {
    |x: FoldedFacts| same_rank(x, t)
}

/// Every entry may stand before all that follow it.
pub open spec fn is_ordered(entries: Seq<FoldedFacts>) -> bool {
    forall|i: int, j: int| 0 <= i < j < entries.len() ==> in_order(entries[i], entries[j])
}

/// Of two entries, one may stand before the other.
pub proof fn lemma_in_order_total(a: FoldedFacts, b: FoldedFacts)
    ensures
        in_order(a, b) || in_order(b, a),
{
    lemma_lex_le_total(a.folded_name, b.folded_name);
}

/// `in_order` is transitive.
pub proof fn lemma_in_order_transitive(a: FoldedFacts, b: FoldedFacts, c: FoldedFacts)
    requires
        in_order(a, b),
        in_order(b, c),
    ensures
        in_order(a, c),
{
    if a.entry.is_directory == b.entry.is_directory && b.entry.is_directory
        == c.entry.is_directory {
        lemma_lex_le_transitive(a.folded_name, b.folded_name, c.folded_name);
    }
}

/// Entries of the same rank are both directories or both none, and have the
/// same folded name.
pub proof fn lemma_same_rank_means_same_key(a: FoldedFacts, b: FoldedFacts)
    ensures
        same_rank(a, b) <==> a.entry.is_directory == b.entry.is_directory && a.folded_name
            == b.folded_name,
{
    if same_rank(a, b) {
        lemma_lex_le_antisymmetric(a.folded_name, b.folded_name);
    }
    if a.folded_name == b.folded_name {
        lemma_lex_le_reflexive(a.folded_name);
    }
}

/// The place at which `insert_in_order` puts `e`.
proof fn lemma_insert_position(sorted: Seq<FoldedFacts>, e: FoldedFacts) -> (at: int)
    ensures
        0 <= at <= sorted.len(),
        insert_in_order(sorted, e) == sorted.insert(at, e),
        at > 0 ==> in_order(sorted[at - 1], e),
        forall|j: int| at <= j < sorted.len() ==> !in_order(#[trigger] sorted[j], e),
    decreases sorted.len(),
{
    if sorted.len() == 0 || in_order(sorted.last(), e) {
        assert(sorted.insert(sorted.len() as int, e) =~= sorted.push(e));
        sorted.len() as int
    } else {
        let shorter = sorted.drop_last();
        let at = lemma_insert_position(shorter, e);
        assert(shorter.insert(at, e).push(sorted.last()) =~= sorted.insert(at, e));
        assert forall|j: int| at <= j < sorted.len() implies !in_order(
            #[trigger] sorted[j],
            e,
        ) by {
            if j < shorter.len() {
                assert(sorted[j] == shorter[j]);
            }
        }
        at
    }
}

/// Putting an entry into an ordered sequence leaves it ordered.
proof fn lemma_insert_keeps_order(sorted: Seq<FoldedFacts>, e: FoldedFacts)
    requires
        is_ordered(sorted),
    ensures
        is_ordered(insert_in_order(sorted, e)),
{
    let at = lemma_insert_position(sorted, e);
    let longer = sorted.insert(at, e);
    assert forall|i: int, j: int| 0 <= i < j < longer.len() implies in_order(
        longer[i],
        longer[j],
    ) by {
        if j < at {
        } else if j == at {
            if i < at - 1 {
                lemma_in_order_transitive(sorted[i], sorted[at - 1], e);
            }
        } else if i == at {
            assert(!in_order(sorted[j - 1], e));
            lemma_in_order_total(sorted[j - 1], e);
        } else if i < at {
            assert(longer[i] == sorted[i] && longer[j] == sorted[j - 1]);
        } else {
            assert(longer[i] == sorted[i - 1] && longer[j] == sorted[j - 1]);
        }
    }
}

/// A listing is ordered: every entry may stand before all that follow it.
pub proof fn lemma_arranged_is_ordered(entries: Seq<FoldedFacts>)
    ensures
        is_ordered(arranged(entries)),
    decreases entries.len(),
{
    if entries.len() > 0 {
        lemma_arranged_is_ordered(entries.drop_last());
        lemma_insert_keeps_order(arranged(entries.drop_last()), entries.last());
    }
}

/// A listing holds the entries it was made from, each as often as it was
/// given, and nothing else.
pub proof fn lemma_arranged_is_permutation(entries: Seq<FoldedFacts>)
    ensures
        arranged(entries).len() == entries.len(),
        arranged(entries).to_multiset() == entries.to_multiset(),
    decreases entries.len(),
{
    if entries.len() == 0 {
        assert(entries =~= Seq::empty());
    } else {
        let shorter = entries.drop_last();
        lemma_arranged_is_permutation(shorter);
        let at = lemma_insert_position(arranged(shorter), entries.last());
        to_multiset_insert(arranged(shorter), at, entries.last());
        to_multiset_build(shorter, entries.last());
        assert(shorter.push(entries.last()) =~= entries);
    }
}

/// Where no entry passes a test, filtering by it leaves nothing.
proof fn lemma_filter_none(entries: Seq<FoldedFacts>, pred: spec_fn(FoldedFacts) -> bool)
    requires
        forall|k: int| 0 <= k < entries.len() ==> !pred(#[trigger] entries[k]),
    ensures
        entries.filter(pred) == Seq::<FoldedFacts>::empty(),
    decreases entries.len(),
{
    reveal(Seq::filter);
    if entries.len() > 0 {
        lemma_filter_none(entries.drop_last(), pred);
    }
}

/// Putting in an entry appends it to the entries of its own rank and leaves
/// those of every other rank as they were.
proof fn lemma_insert_within_rank(sorted: Seq<FoldedFacts>, e: FoldedFacts, t: FoldedFacts)
    ensures
        insert_in_order(sorted, e).filter(of_rank(t)) == if same_rank(e, t) {
            sorted.filter(of_rank(t)).push(e)
        } else {
            sorted.filter(of_rank(t))
        },
{
    let pred = of_rank(t);
    let at = lemma_insert_position(sorted, e);
    let front = sorted.take(at);
    let back = sorted.skip(at);
    assert(sorted =~= front + back);
    assert(sorted.insert(at, e) =~= front.push(e) + back);
    Seq::filter_distributes_over_add(front, back, pred);
    Seq::filter_distributes_over_add(front.push(e), back, pred);
    front.lemma_filter_push(e, pred);
    if same_rank(e, t) {
        let kept = back.filter(pred);
        assert forall|k: int| 0 <= k < back.len() implies !pred(#[trigger] back[k]) by {
            assert(back[k] == sorted[at + k]);
            if same_rank(back[k], t) {
                lemma_in_order_transitive(back[k], t, e);
            }
        }
        lemma_filter_none(back, pred);
        assert(front.filter(pred).push(e) + kept =~= (front.filter(pred) + kept).push(e));
    }
}

/// A listing is stable: the entries of any one rank stand in it in the order
/// in which they were given.
pub proof fn lemma_arranged_is_stable(entries: Seq<FoldedFacts>, t: FoldedFacts)
    ensures
        arranged(entries).filter(of_rank(t)) == entries.filter(of_rank(t)),
    decreases entries.len(),
{
    if entries.len() == 0 {
        assert(entries =~= arranged(entries));
    } else {
        let shorter = entries.drop_last();
        lemma_arranged_is_stable(shorter, t);
        lemma_insert_within_rank(arranged(shorter), entries.last(), t);
        shorter.lemma_filter_push(entries.last(), of_rank(t));
        assert(shorter.push(entries.last()) =~= entries);
    }
}

/// Whether `listing` holds `entries` in listing order and stably: it is
/// ordered, and the entries of each rank stand in it as they were given.
pub open spec fn is_stable_arrangement(listing: Seq<FoldedFacts>, entries: Seq<FoldedFacts>) -> bool {
    &&& listing.len() == entries.len()
    &&& is_ordered(listing)
    &&& forall|t: FoldedFacts| #[trigger]
        listing.filter(of_rank(t)) == entries.filter(of_rank(t))
}

/// `arranged` gives a stable arrangement of the entries.
pub proof fn lemma_arranged_is_stable_arrangement(entries: Seq<FoldedFacts>)
    ensures
        is_stable_arrangement(arranged(entries), entries),
{
    lemma_arranged_is_ordered(entries);
    lemma_arranged_is_permutation(entries);
    assert forall|t: FoldedFacts| #[trigger]
        arranged(entries).filter(of_rank(t)) == entries.filter(of_rank(t)) by {
        lemma_arranged_is_stable(entries, t);
    }
}

/// Two ordered sequences of one length that hold the same entries of each
/// rank, in the same order, are one sequence.
proof fn lemma_same_ranks_same_sequence(a: Seq<FoldedFacts>, b: Seq<FoldedFacts>)
    requires
        a.len() == b.len(),
        is_ordered(a),
        is_ordered(b),
        forall|t: FoldedFacts| #[trigger] a.filter(of_rank(t)) == b.filter(of_rank(t)),
    ensures
        a == b,
    decreases a.len(),
{
    if a.len() == 0 {
        assert(a =~= b);
    } else {
        let x = a.last();
        let y = b.last();
        let shorter_a = a.drop_last();
        let shorter_b = b.drop_last();
        assert(shorter_a.push(x) =~= a);
        assert(shorter_b.push(y) =~= b);
        lemma_last_ranks_with(a, b);
        lemma_last_ranks_with(b, a);
        lemma_lex_le_reflexive(x.folded_name);
        shorter_a.lemma_filter_push(x, of_rank(x));
        shorter_b.lemma_filter_push(y, of_rank(x));
        assert(a.filter(of_rank(x)) == b.filter(of_rank(x)));
        assert(a.filter(of_rank(x)).last() == x);
        assert(b.filter(of_rank(x)).last() == y);
        assert forall|t: FoldedFacts| #[trigger]
            shorter_a.filter(of_rank(t)) == shorter_b.filter(of_rank(t)) by {
            shorter_a.lemma_filter_push(x, of_rank(t));
            shorter_b.lemma_filter_push(x, of_rank(t));
            assert(a.filter(of_rank(t)) == b.filter(of_rank(t)));
            if same_rank(x, t) {
                assert(shorter_a.filter(of_rank(t)).push(x).drop_last() =~= shorter_a.filter(
                    of_rank(t),
                ));
                assert(shorter_b.filter(of_rank(t)).push(x).drop_last() =~= shorter_b.filter(
                    of_rank(t),
                ));
            }
        }
        lemma_same_ranks_same_sequence(shorter_a, shorter_b);
    }
}

/// The last entry of `a` may stand before the last entry of `b`, where both
/// are ordered and hold the same entries of each rank.
proof fn lemma_last_ranks_with(a: Seq<FoldedFacts>, b: Seq<FoldedFacts>)
    requires
        a.len() == b.len(),
        a.len() > 0,
        is_ordered(b),
        forall|t: FoldedFacts| #[trigger] a.filter(of_rank(t)) == b.filter(of_rank(t)),
    ensures
        in_order(a.last(), b.last()),
{
    let x = a.last();
    let pred = of_rank(x);
    lemma_lex_le_reflexive(x.folded_name);
    assert(a.drop_last().push(x) =~= a);
    a.drop_last().lemma_filter_push(x, pred);
    assert(a.filter(pred).last() == x);
    assert(b.filter(pred) == a.filter(pred));
    let kept = b.filter(pred);
    assert(kept[kept.len() - 1] == x);
    assert(kept.contains(x));
    b.lemma_filter_contains_rev(pred, x);
    let k = choose|k: int| 0 <= k < b.len() && b[k] == x;
    if k < b.len() - 1 {
        assert(in_order(b[k], b[b.len() - 1]));
    }
}

/// Listing order leaves no choice: a stable arrangement of the entries is the
/// one that `arranged` gives.
pub proof fn lemma_stable_arrangement_is_unique(
    listing: Seq<FoldedFacts>,
    entries: Seq<FoldedFacts>,
)
    requires
        is_stable_arrangement(listing, entries),
    ensures
        listing == arranged(entries),
{
    lemma_arranged_is_stable_arrangement(entries);
    assert forall|t: FoldedFacts| #[trigger]
        listing.filter(of_rank(t)) == arranged(entries).filter(of_rank(t)) by {
        assert(listing.filter(of_rank(t)) == entries.filter(of_rank(t)));
        assert(arranged(entries).filter(of_rank(t)) == entries.filter(of_rank(t)));
    }
    lemma_same_ranks_same_sequence(listing, arranged(entries));
}

/// Decides `in_order`.
pub fn entry_in_order(a: &FoldedEntry, b: &FoldedEntry) -> (r: bool)
    ensures
        r == in_order(a@, b@),
{
    if a.entry.is_directory != b.entry.is_directory {
        a.entry.is_directory
    } else {
        chars_le(&a.folded_name, &b.folded_name)
    }
}

/// Putting `e` at `at` is `insert_in_order`, where the entry before `at` may
/// stand before `e` and none from `at` on may.
proof fn lemma_insert_at(sorted: Seq<FoldedFacts>, e: FoldedFacts, at: int)
    requires
        0 <= at <= sorted.len(),
        at > 0 ==> in_order(sorted[at - 1], e),
        forall|j: int| at <= j < sorted.len() ==> !in_order(#[trigger] sorted[j], e),
    ensures
        insert_in_order(sorted, e) == sorted.insert(at, e),
    decreases sorted.len() - at,
{
    if at == sorted.len() {
        assert(sorted.insert(at, e) =~= sorted.push(e));
    } else {
        let shorter = sorted.drop_last();
        assert(!in_order(sorted.last(), e));
        lemma_insert_at(shorter, e, at);
        assert(shorter.insert(at, e).push(sorted.last()) =~= sorted.insert(at, e));
    }
}

/// Where `e` goes in `sorted`: behind the last entry that may stand before it.
fn insertion_point(sorted: &Vec<FoldedEntry>, e: &FoldedEntry) -> (at: usize)
    ensures
        at <= sorted.len(),
        insert_in_order(folded_views(sorted@), e@) == folded_views(sorted@).insert(at as int, e@),
{
    let mut at = sorted.len();
    while at > 0 && !entry_in_order(&sorted[at - 1], e)
        invariant
            at <= sorted.len(),
            forall|j: int| at <= j < sorted.len() ==> !in_order(#[trigger] sorted@[j]@, e@),
        decreases at,
    {
        at -= 1;
    }
    proof {
        lemma_insert_at(folded_views(sorted@), e@, at as int);
    }
    at
}

/// Puts entries in listing order and makes the items of the listing from them.
pub fn arrange_entries(entries: Vec<FoldedEntry>) -> (items: Vec<FileItem>)
    ensures
        item_views(items@) == items_of(arranged(folded_views(entries@))),
        items@.len() == entries@.len(),
{
    let ghost given = folded_views(entries@);
    let mut sorted: Vec<FoldedEntry> = Vec::new();
    assert(given.take(0) =~= Seq::<FoldedFacts>::empty());
    for e in it: entries
        invariant
            it.seq() == entries@,
            given == folded_views(entries@),
            folded_views(sorted@) == arranged(given.take(it.index() as int)),
    {
        let ghost before = folded_views(sorted@);
        let at = insertion_point(&sorted, &e);
        sorted.insert(at, e);
        proof {
            let prefix = given.take(it.index() + 1);
            assert(prefix.drop_last() =~= given.take(it.index() as int));
            assert(prefix.last() == e@);
            assert(folded_views(sorted@) =~= before.insert(at as int, e@));
        }
    }
    assert(given.take(entries@.len() as int) =~= given);
    let ghost order = folded_views(sorted@);
    let mut items: Vec<FileItem> = Vec::new();
    for f in it: sorted
        invariant
            it.seq() == sorted@,
            order == folded_views(sorted@),
            item_views(items@) == items_of(order.take(it.index() as int)),
    {
        let ghost before = item_views(items@);
        items.push(
            FileItem {
                name: f.entry.name,
                path: f.entry.path,
                is_directory: f.entry.is_directory,
                children: None,
            },
        );
        proof {
            assert(item_views(items@) =~= before.push(item_of(f@.entry)));
            assert(items_of(order.take(it.index() + 1)) =~= before.push(item_of(f@.entry)));
        }
    }
    assert(order.take(sorted@.len() as int) =~= order);
    proof {
        lemma_arranged_is_permutation(given);
        assert(item_views(items@).len() == items@.len());
    }
    items
}

/// A name is hidden where it begins with a full stop.
pub open spec fn is_hidden(name: Seq<char>) -> bool {
    name.len() > 0 && name[0] == '.'
}

/// The test for being shown in a listing.
pub open spec fn is_shown() -> spec_fn(EntryFacts) -> bool {
    |entry: EntryFacts| !is_hidden(entry.name)
}

/// The entries that a listing shows, in the order in which they were read.
pub open spec fn visible(entries: Seq<EntryFacts>) -> Seq<EntryFacts> {
    entries.filter(is_shown())
}

/// An entry with its name in lowercase as the text to compare it by.
pub open spec fn folded(entry: EntryFacts) -> FoldedFacts {
    FoldedFacts { folded_name: lowercase(entry.name), entry }
}

/// `folded`, of each entry.
pub open spec fn all_folded(entries: Seq<EntryFacts>) -> Seq<FoldedFacts> {
    Seq::new(entries.len(), |i: int| folded(entries[i]))
}

/// The listing of a directory whose entries were all read: the entries that
/// are not hidden, directories first, by name without regard to case.
pub open spec fn listing_of(entries: Seq<EntryFacts>) -> Seq<FileItemView> {
    items_of(arranged(all_folded(visible(entries))))
}

/// The value of the outcome of reading one entry.
pub open spec fn outcome_view(outcome: Result<EntryProbe, String>) -> Result<
    EntryFacts,
    Seq<char>,
> {
    match outcome {
        Ok(entry) => Ok(entry@),
        Err(text) => Err(text@),
    }
}

/// The values of the outcomes of reading a directory's entries.
pub open spec fn outcome_views(outcomes: Seq<Result<EntryProbe, String>>) -> Seq<
    Result<EntryFacts, Seq<char>>,
> {
    Seq::new(outcomes.len(), |i: int| outcome_view(outcomes[i]))
}

/// The value of what reading a directory gave: the reason why it could not be
/// opened, or the outcome for each entry.
pub open spec fn reads_view(reads: Result<Vec<Result<EntryProbe, String>>, String>) -> Result<
    Seq<Result<EntryFacts, Seq<char>>>,
    Seq<char>,
> {
    match reads {
        Ok(outcomes) => Ok(outcome_views(outcomes@)),
        Err(text) => Err(text@),
    }
}

/// The value of a listing or of the error in its place.
pub open spec fn listing_view(listing: Result<Vec<FileItem>, ListError>) -> Result<
    Seq<FileItemView>,
    ListErrorView,
> {
    match listing {
        Ok(items) => Ok(item_views(items@)),
        Err(error) => Err(error@),
    }
}

/// The text of the earliest failure among the outcomes, if any entry failed.
pub open spec fn first_failure(outcomes: Seq<Result<EntryFacts, Seq<char>>>) -> Option<
    Seq<char>,
>
    decreases outcomes.len(),
{
    if outcomes.len() == 0 {
        None
    } else {
        match first_failure(outcomes.drop_last()) {
            Some(text) => Some(text),
            None => match outcomes.last() {
                Err(text) => Some(text),
                Ok(_) => None,
            },
        }
    }
}

/// The entries that were read, in the order of the outcomes.
pub open spec fn successes(outcomes: Seq<Result<EntryFacts, Seq<char>>>) -> Seq<EntryFacts>
    decreases outcomes.len(),
{
    if outcomes.len() == 0 {
        Seq::empty()
    } else {
        match outcomes.last() {
            Ok(entry) => successes(outcomes.drop_last()).push(entry),
            Err(_) => successes(outcomes.drop_last()),
        }
    }
}

/// What listing a path gives. A path that does not exist is reported before
/// one that is no directory; then a directory that could not be opened; then
/// the earliest entry that could not be read. Only where all of it went well
/// there is a listing.
pub open spec fn shallow_listing(
    probe: PathProbe,
    reads: Result<Seq<Result<EntryFacts, Seq<char>>>, Seq<char>>,
) -> Result<Seq<FileItemView>, ListErrorView> {
    if !probe.exists {
        Err(ListErrorView::PathNotFound)
    } else if !probe.is_directory {
        Err(ListErrorView::NotADirectory)
    } else {
        match reads {
            Err(text) => Err(ListErrorView::Io(text)),
            Ok(outcomes) => match first_failure(outcomes) {
                Some(text) => Err(ListErrorView::Io(text)),
                None => Ok(listing_of(successes(outcomes))),
            },
        }
    }
}

/// The order of two items of a listing: a directory before what is none, and
/// otherwise by name in lowercase.
pub open spec fn listed_in_order(a: FileItemView, b: FileItemView) -> bool {
    if a.is_directory != b.is_directory {
        a.is_directory
    } else {
        lex_le(lowercase(a.name), lowercase(b.name))
    }
}

/// The failure that `first_failure` reports stands at some place in the
/// outcomes, and every outcome before that place is a success. Where it
/// reports none, every outcome is a success.
pub proof fn lemma_first_failure_is_earliest(outcomes: Seq<Result<EntryFacts, Seq<char>>>)
    ensures
        first_failure(outcomes) is None <==> forall|i: int|
            0 <= i < outcomes.len() ==> (#[trigger] outcomes[i]) is Ok,
        first_failure(outcomes) matches Some(text) ==> exists|i: int|
            0 <= i < outcomes.len() && #[trigger] outcomes[i] == Err::<EntryFacts, Seq<char>>(text)
                && forall|j: int| 0 <= j < i ==> (#[trigger] outcomes[j]) is Ok,
    decreases outcomes.len(),
{
    if outcomes.len() > 0 {
        let shorter = outcomes.drop_last();
        lemma_first_failure_is_earliest(shorter);
        assert forall|i: int| 0 <= i < shorter.len() implies shorter[i] == outcomes[i] by {}
        match first_failure(shorter) {
            Some(text) => {
                let i = choose|i: int|
                    0 <= i < shorter.len() && #[trigger] shorter[i] == Err::<
                        EntryFacts,
                        Seq<char>,
                    >(text) && forall|j: int| 0 <= j < i ==> (#[trigger] shorter[j]) is Ok;
                assert(outcomes[i] == Err::<EntryFacts, Seq<char>>(text));
                assert forall|j: int| 0 <= j < i implies (#[trigger] outcomes[j]) is Ok by {
                    assert(shorter[j] is Ok);
                }
            },
            None => {
                assert forall|j: int| 0 <= j < shorter.len() implies (
                #[trigger] outcomes[j]) is Ok by {
                    assert(shorter[j] is Ok);
                }
                if outcomes.last() is Err {
                    let last = outcomes.len() - 1;
                    assert(outcomes[last] == Err::<EntryFacts, Seq<char>>(
                        outcomes.last()->Err_0,
                    ));
                }
            },
        }
    }
}

/// A listing shows no hidden entry, gives no item children, and stands in
/// order: every directory before every entry that is none, and within either
/// kind the names in lowercase never descending.
pub proof fn lemma_listing_properties(entries: Seq<EntryFacts>)
    ensures
        forall|i: int|
            0 <= i < listing_of(entries).len() ==> !is_hidden(
                (#[trigger] listing_of(entries)[i]).name,
            ),
        forall|i: int|
            0 <= i < listing_of(entries).len() ==> (#[trigger] listing_of(
                entries,
            )[i]).children is None,
        forall|i: int, j: int|
            0 <= i < j < listing_of(entries).len() ==> listed_in_order(
                #[trigger] listing_of(entries)[i],
                #[trigger] listing_of(entries)[j],
            ),
{
    let shown = visible(entries);
    let keyed = all_folded(shown);
    let order = arranged(keyed);
    let listing = listing_of(entries);
    lemma_arranged_is_ordered(keyed);
    lemma_arranged_is_permutation(keyed);
    assert forall|i: int| 0 <= i < order.len() implies (#[trigger] order[i]).folded_name
        == lowercase(order[i].entry.name) && !is_hidden(order[i].entry.name) by {
        order.to_multiset_ensures();
        keyed.to_multiset_ensures();
        assert(order.contains(order[i]));
        assert(order.to_multiset().count(order[i]) > 0);
        assert(keyed.to_multiset().count(order[i]) > 0);
        assert(keyed.contains(order[i]));
        let k = choose|k: int| 0 <= k < keyed.len() && keyed[k] == order[i];
        entries.lemma_filter_pred(is_shown(), k);
        assert(is_shown()(shown[k]));
        assert(keyed[k] == folded(shown[k]));
    }
    assert forall|i: int| 0 <= i < listing.len() implies !is_hidden(
        (#[trigger] listing[i]).name,
    ) by {
        assert(listing[i] == item_of(order[i].entry));
    }
    assert forall|i: int, j: int| 0 <= i < j < listing.len() implies listed_in_order(
        #[trigger] listing[i],
        #[trigger] listing[j],
    ) by {
        assert(in_order(order[i], order[j]));
        assert(listing[i] == item_of(order[i].entry));
        assert(listing[j] == item_of(order[j].entry));
    }
}

/// A listing holds one item for each entry that is not hidden, and nothing
/// else.
pub proof fn lemma_listing_is_complete(entries: Seq<EntryFacts>)
    ensures
        listing_of(entries).len() == visible(entries).len(),
        listing_of(entries).to_multiset() == Seq::new(
            visible(entries).len(),
            |i: int| item_of(visible(entries)[i]),
        ).to_multiset(),
{
    let shown = visible(entries);
    let keyed = all_folded(shown);
    let order = arranged(keyed);
    lemma_arranged_is_permutation(keyed);
    let plain = Seq::new(shown.len(), |i: int| item_of(shown[i]));
    assert(plain =~= items_of(keyed));
    lemma_items_of_multiset(order, keyed);
}

/// Sequences of the same entries give the same items.
proof fn lemma_items_of_multiset(a: Seq<FoldedFacts>, b: Seq<FoldedFacts>)
    requires
        a.to_multiset() == b.to_multiset(),
    ensures
        items_of(a).to_multiset() == items_of(b).to_multiset(),
    decreases a.len(),
{
    a.to_multiset_ensures();
    b.to_multiset_ensures();
    if a.len() == 0 {
        assert(b.len() == 0);
        assert(items_of(a) =~= items_of(b));
    } else {
        let x = a.last();
        assert(a.to_multiset().count(x) > 0) by {
            assert(a.contains(x));
        }
        assert(b.contains(x));
        let k = choose|k: int| 0 <= k < b.len() && b[k] == x;
        let shorter_a = a.drop_last();
        let shorter_b = b.remove(k);
        to_multiset_remove(a, a.len() - 1);
        to_multiset_remove(b, k);
        assert(a.remove(a.len() - 1) =~= shorter_a);
        lemma_items_of_multiset(shorter_a, shorter_b);
        assert(items_of(a) =~= items_of(shorter_a).push(item_of(x.entry)));
        assert(items_of(b) =~= items_of(shorter_b).insert(k, item_of(x.entry)));
        to_multiset_build(items_of(shorter_a), item_of(x.entry));
        to_multiset_insert(items_of(shorter_b), k, item_of(x.entry));
    }
}

/// Whether a name is hidden.
pub fn is_hidden_name(name: &str) -> (hidden: bool)
    ensures
        hidden == is_hidden(name@),
{
    !name.is_empty() && name.get_char(0) == '.'
}

/// Decides whether a path can be listed at all, before any of it is read.
pub fn check_directory(probe: &PathProbe) -> (r: Result<(), ListError>)
    ensures
        !probe.exists ==> r == Err::<(), ListError>(ListError::PathNotFound),
        probe.exists && !probe.is_directory ==> r == Err::<(), ListError>(
            ListError::NotADirectory,
        ),
        probe.exists && probe.is_directory ==> r is Ok,
{
    if !probe.exists {
        Err(ListError::PathNotFound)
    } else if !probe.is_directory {
        Err(ListError::NotADirectory)
    } else {
        Ok(())
    }
}

/// Lists a directory from what the file system said of it: `probe` of the
/// path itself, `reads` of opening it and of each of its entries in turn.
/// The listing holds the immediate entries only and descends into none.
pub fn read_directory_shallow(
    probe: &PathProbe,
    reads: Result<Vec<Result<EntryProbe, String>>, String>,
) -> (listing: Result<Vec<FileItem>, ListError>)
    ensures
        listing_view(listing) == shallow_listing(*probe, reads_view(reads)),
        !probe.exists ==> listing == Err::<Vec<FileItem>, ListError>(ListError::PathNotFound),
        probe.exists && !probe.is_directory ==> listing == Err::<Vec<FileItem>, ListError>(
            ListError::NotADirectory,
        ),
        listing is Ok <==> probe.exists && probe.is_directory && (reads matches Ok(outcomes)
            && forall|i: int| 0 <= i < outcomes@.len() ==> (#[trigger] outcomes@[i]) is Ok),
        listing matches Ok(items) ==> {
            &&& forall|i: int| 0 <= i < items@.len() ==> !is_hidden((#[trigger] items@[i]).name@)
            &&& forall|i: int| 0 <= i < items@.len() ==> (#[trigger] items@[i]).children is None
            &&& forall|i: int, j: int|
                0 <= i < j < items@.len() ==> listed_in_order(
                    (#[trigger] items@[i])@,
                    (#[trigger] items@[j])@,
                )
        },
{
    if !probe.exists {
        return Err(ListError::PathNotFound);
    }
    if !probe.is_directory {
        return Err(ListError::NotADirectory);
    }
    let ghost whole = reads_view(reads);
    let outcomes = match reads {
        Err(text) => {
            return Err(ListError::Io(text));
        },
        Ok(outcomes) => outcomes,
    };
    let ghost given = outcome_views(outcomes@);
    let mut kept: Vec<FoldedEntry> = Vec::new();
    assert(given.take(0) =~= Seq::empty());
    proof {
        reveal(Seq::filter);
    }
    assert(folded_views(kept@) =~= all_folded(visible(successes(given.take(0)))));
    for outcome in it: outcomes
        invariant
            it.seq() == outcomes@,
            given == outcome_views(outcomes@),
            whole == reads_view(reads),
            whole == Ok::<Seq<Result<EntryFacts, Seq<char>>>, Seq<char>>(given),
            probe.exists && probe.is_directory,
            first_failure(given.take(it.index() as int)) is None,
            folded_views(kept@) == all_folded(visible(successes(given.take(it.index() as int)))),
    {
        let ghost before = given.take(it.index() as int);
        let ghost after = given.take(it.index() + 1);
        let ghost kept_before = folded_views(kept@);
        proof {
            assert(after.drop_last() =~= before);
            assert(after.last() == outcome_view(outcome));
        }
        match outcome {
            Err(text) => {
                proof {
                    assert(first_failure(after) == Some(text@));
                    lemma_first_failure_extends(given, it.index() + 1);
                    assert(outcomes@[it.index() as int] is Err);
                }
                return Err(ListError::Io(text));
            },
            Ok(entry) => {
                proof {
                    successes(before).lemma_filter_push(entry@, is_shown());
                }
                if !is_hidden_name(entry.name.as_str()) {
                    let folded_name = chars_of(fold_case(entry.name.as_str()).as_str());
                    kept.push(FoldedEntry { folded_name, entry });
                    proof {
                        assert(folded_views(kept@) =~= kept_before.push(folded(entry@)));
                        assert(all_folded(visible(successes(after))) =~= kept_before.push(
                            folded(entry@),
                        ));
                    }
                }
            },
        }
    }
    proof {
        assert(given.take(outcomes@.len() as int) =~= given);
        lemma_listing_properties(successes(given));
        lemma_first_failure_is_earliest(given);
        assert forall|i: int| 0 <= i < outcomes@.len() implies (#[trigger] outcomes@[i]) is Ok by {
            assert(given[i] is Ok);
        }
    }
    let items = arrange_entries(kept);
    proof {
        let shown = listing_of(successes(given));
        assert forall|i: int| 0 <= i < items@.len() implies (#[trigger] items@[i])@
            == shown[i] by {
            assert(item_views(items@)[i] == items@[i]@);
        }
    }
    Ok(items)
}

/// A failure among the first outcomes is the first failure of all of them.
proof fn lemma_first_failure_extends(outcomes: Seq<Result<EntryFacts, Seq<char>>>, n: int)
    requires
        0 <= n <= outcomes.len(),
        first_failure(outcomes.take(n)) is Some,
    ensures
        first_failure(outcomes) == first_failure(outcomes.take(n)),
    decreases outcomes.len() - n,
{
    if n < outcomes.len() {
        assert(outcomes.take(n + 1).drop_last() =~= outcomes.take(n));
        lemma_first_failure_extends(outcomes, n + 1);
    } else {
        assert(outcomes.take(n) =~= outcomes);
    }
}

} // verus!
