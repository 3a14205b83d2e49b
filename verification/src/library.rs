use vstd::prelude::*;

verus! {

use crate::text::lemma_lex_le_antisym;
use crate::text::lemma_lex_le_refl;
use crate::text::lemma_lex_le_total;
use crate::text::lemma_lex_le_trans;
use crate::text::lex_le;
use crate::text::spec_contains;
use crate::text::str_contains;
use crate::text::str_le;
use vstd::multiset::Multiset;
use vstd::relations::sorted_by;
use vstd::relations::total_ordering;
use vstd::seq_lib::lemma_sorted_unique;
use vstd::string::StrSliceExecFns;
use vstd::string::StringExecFns;

/// The mathematical value of one classified entry: its name as a character
/// sequence, together with its classification flags.
#[verifier::ext_equal]
pub ghost struct ItemModel {
    pub name: Seq<char>,
    pub is_dir: bool,
    pub has_child_dir: bool,
    pub has_child_file: bool,
}

/// One classified filesystem entry: a file or a directory, a directory
/// annotated with whether it has at least one immediate child directory and
/// at least one immediate child file.
#[derive(Debug)]
pub struct LibraryItem {
    pub name: String,
    pub is_dir: bool,
    pub has_child_dir: bool,
    pub has_child_file: bool,
}

impl View for LibraryItem {
    type V = ItemModel;

    open spec fn view(&self) -> ItemModel {
        ItemModel {
            name: self.name@,
            is_dir: self.is_dir,
            has_child_dir: self.has_child_dir,
            has_child_file: self.has_child_file,
        }
    }
}

impl DeepView for LibraryItem {
    type V = ItemModel;

    open spec fn deep_view(&self) -> ItemModel {
        self@
    }
}

impl Clone for LibraryItem {
    /// The clone has the same model as the original.
    fn clone(&self) -> (res: Self)
        ensures
            res@ == self@,
    {
        LibraryItem {
            name: self.name.clone(),
            is_dir: self.is_dir,
            has_child_dir: self.has_child_dir,
            has_child_file: self.has_child_file,
        }
    }
}

impl PartialEq for LibraryItem {
    fn eq(&self, other: &Self) -> (r: bool) {
        let r = self.name == other.name && self.is_dir == other.is_dir && self.has_child_dir
            == other.has_child_dir && self.has_child_file == other.has_child_file;
        proof {
            if r {
                assert(self@ =~= other@);
            }
        }
        r
    }
}

impl vstd::std_specs::cmp::PartialEqSpecImpl for LibraryItem {
    open spec fn obeys_eq_spec() -> bool {
        true
    }

    open spec fn eq_spec(&self, other: &Self) -> bool {
        self@ == other@
    }
}

/// What the filesystem reports one node to be: a directory, a regular file,
/// or anything else.
#[derive(Clone, Copy, PartialEq, Eq, Structural, Debug)]
pub enum NodeKind {
    File,
    Directory,
    Other,
}

/// Why a whole scan failed: the target does not exist or is not a directory,
/// or any other listing failure.
#[derive(Clone, Copy, PartialEq, Eq, Structural, Debug)]
pub enum LibraryError {
    NotFound,
    Other,
}

/// Why startup validation of the library root failed, as a message.
#[derive(Debug)]
pub struct ValidationError(pub String);

/// Some immediate child is a directory.
pub open spec fn has_dir(kinds: Seq<NodeKind>) -> bool {
    exists|i: int| 0 <= i < kinds.len() && kinds[i] is Directory
}

/// Some immediate child is a regular file.
pub open spec fn has_file(kinds: Seq<NodeKind>) -> bool {
    exists|i: int| 0 <= i < kinds.len() && kinds[i] is File
}

/// Observing one more child extends the flags in the evident way.
pub proof fn lemma_has_flags_push(kinds: Seq<NodeKind>, kind: NodeKind)
    ensures
        has_dir(kinds.push(kind)) == (has_dir(kinds) || kind is Directory),
        has_file(kinds.push(kind)) == (has_file(kinds) || kind is File),
{
    let p = kinds.push(kind);
    assert(p[kinds.len() as int] == kind);
    assert forall|i: int| 0 <= i < kinds.len() implies p[i] == kinds[i] by {}
    if has_dir(kinds) {
        let i = choose|i: int| 0 <= i < kinds.len() && kinds[i] is Directory;
        assert(p[i] is Directory);
    }
    if has_dir(p) {
        let i = choose|i: int| 0 <= i < p.len() && p[i] is Directory;
        if i < kinds.len() {
            assert(kinds[i] is Directory);
        }
    }
    if has_file(kinds) {
        let i = choose|i: int| 0 <= i < kinds.len() && kinds[i] is File;
        assert(p[i] is File);
    }
    if has_file(p) {
        let i = choose|i: int| 0 <= i < p.len() && p[i] is File;
        if i < kinds.len() {
            assert(kinds[i] is File);
        }
    }
}

/// Child-presence flags accumulated over a shallow scan of a directory's
/// immediate children, one child at a time. Once both flags are true no
/// further child can change them, so a scan may stop early.
pub struct ChildFlags {
    pub has_child_dir: bool,
    pub has_child_file: bool,
}

impl ChildFlags {
    /// The flags of `seen`, the children observed so far.
    pub open spec fn models(&self, seen: Seq<NodeKind>) -> bool {
        self.has_child_dir == has_dir(seen) && self.has_child_file == has_file(seen)
    }

    /// The flags before any child has been observed.
    pub fn new() -> (f: ChildFlags)
        ensures
            !f.has_child_dir,
            !f.has_child_file,
            f.models(Seq::empty()),
    {
        ChildFlags { has_child_dir: false, has_child_file: false }
    }

    /// Folds one observed child into the flags.
    pub fn observe(&mut self, kind: NodeKind)
        ensures
            final(self).has_child_dir == (old(self).has_child_dir || kind is Directory),
            final(self).has_child_file == (old(self).has_child_file || kind is File),
    {
        match kind {
            NodeKind::Directory => {
                self.has_child_dir = true;
            },
            NodeKind::File => {
                self.has_child_file = true;
            },
            NodeKind::Other => {},
        }
    }
}

/// The child-presence flags of the whole sequence of children, scanned in
/// order and stopping as soon as both flags are true.
pub fn child_flags(kinds: &Vec<NodeKind>) -> (f: ChildFlags)
    ensures
        f.models(kinds@),
{
    let mut f = ChildFlags::new();
    let mut i: usize = 0;
    while i < kinds.len() && !(f.has_child_dir && f.has_child_file)
        invariant
            i <= kinds@.len(),
            f.models(kinds@.take(i as int)),
        decreases kinds@.len() - i,
    {
        f.observe(kinds[i]);
        proof {
            assert(kinds@.take(i + 1).drop_last() =~= kinds@.take(i as int));
            assert(kinds@.take(i + 1) =~= kinds@.take(i as int).push(kinds@[i as int]));
            lemma_has_flags_push(kinds@.take(i as int), kinds@[i as int]);
        }
        i += 1;
    }
    proof {
        if i == kinds@.len() {
            assert(kinds@.take(i as int) =~= kinds@);
        } else {
            let seen = kinds@.take(i as int);
            assert(f.has_child_dir && f.has_child_file);
            let d = choose|k: int| 0 <= k < seen.len() && seen[k] is Directory;
            assert(kinds@[d] is Directory);
            let e = choose|k: int| 0 <= k < seen.len() && seen[k] is File;
            assert(kinds@[e] is File);
        }
    }
    f
}

impl LibraryItem {
    /// Builds the entry for one filesystem node from its decoded name, its
    /// reported kind, and the kinds of its immediate children. The child
    /// kinds matter only for a directory; a non-directory entry always has
    /// both child flags false.
    pub fn classify(name: String, kind: NodeKind, child_kinds: &Vec<NodeKind>) -> (item:
        LibraryItem)
        ensures
            item@.name == name@,
            item@.is_dir == (kind is Directory),
            item@.has_child_dir == (kind is Directory && has_dir(child_kinds@)),
            item@.has_child_file == (kind is Directory && has_file(child_kinds@)),
    {
        match kind {
            NodeKind::Directory => {
                let f = child_flags(child_kinds);
                LibraryItem {
                    name,
                    is_dir: true,
                    has_child_dir: f.has_child_dir,
                    has_child_file: f.has_child_file,
                }
            },
            _ => LibraryItem { name, is_dir: false, has_child_dir: false, has_child_file: false },
        }
    }
}

/// An entry the scanner keeps: anything except a directory with no child
/// directory and no child file.
pub open spec fn keep(m: ItemModel) -> bool {
    !(m.is_dir && !m.has_child_dir && !m.has_child_file)
}

/// The entries a scan retains, in listing order, before sorting: every
/// successfully classified entry that is not an empty directory. A failed
/// classification (`None`) is skipped, never fatal.
pub open spec fn collected(results: Seq<Option<ItemModel>>) -> Seq<ItemModel>
    decreases results.len(),
{
    if results.len() == 0 {
        Seq::empty()
    } else {
        let rest = collected(results.drop_last());
        match results.last() {
            Some(m) => if keep(m) {
                rest.push(m)
            } else {
                rest
            },
            None => rest,
        }
    }
}

/// Every retained entry is a file or a non-empty directory.
pub proof fn lemma_collected_keep(results: Seq<Option<ItemModel>>)
    ensures
        forall|i: int|
            0 <= i < collected(results).len() ==> keep(#[trigger] collected(results)[i]),
    decreases results.len(),
{
    if results.len() > 0 {
        lemma_collected_keep(results.drop_last());
        let rest = collected(results.drop_last());
        let whole = collected(results);
        assert forall|i: int| 0 <= i < whole.len() implies keep(whole[i]) by {
            if i < rest.len() {
                assert(whole[i] == rest[i]);
            }
        }
    }
}

/// Keeps every successfully classified entry that is not an empty directory,
/// in listing order.
pub fn collect_items(results: &Vec<Option<LibraryItem>>) -> (r: Vec<LibraryItem>)
    ensures
        r.deep_view() == collected(results.deep_view()),
{
    let mut r: Vec<LibraryItem> = Vec::new();
    proof {
        assert(r.deep_view() =~= collected(results.deep_view().take(0)));
    }
    let mut i: usize = 0;
    while i < results.len()
        invariant
            i <= results@.len(),
            r.deep_view() == collected(results.deep_view().take(i as int)),
        decreases results@.len() - i,
    {
        let ghost prefix = results.deep_view().take(i as int);
        let ghost old_deep = r.deep_view();
        match &results[i] {
            Some(item) => {
                let is_empty_dir = item.is_dir && (!item.has_child_file && !item.has_child_dir);
                if !is_empty_dir {
                    r.push(item.clone());
                    proof {
                        assert(r.deep_view() =~= old_deep.push(item@));
                    }
                }
            },
            None => {},
        }
        proof {
            assert(results.deep_view().take(i + 1).drop_last() =~= prefix);
            assert(results.deep_view().take(i + 1).last() == results.deep_view()[i as int]);
        }
        i += 1;
    }
    proof {
        assert(results.deep_view().take(results@.len() as int) =~= results.deep_view());
    }
    r
}

/// The scanner's ordering: by name first, a file before a directory of the
/// same name, then each child flag with false before true — the total order
/// whose sortedness makes scan output reproducible.
pub open spec fn model_le(a: ItemModel, b: ItemModel) -> bool {
    if a.name != b.name {
        lex_le(a.name, b.name)
    } else if a.is_dir != b.is_dir {
        !a.is_dir
    } else if a.has_child_dir != b.has_child_dir {
        !a.has_child_dir
    } else if a.has_child_file != b.has_child_file {
        !a.has_child_file
    } else {
        true
    }
}

/// The scanner's ordering as a relation value, for vstd's sortedness
/// predicates.
pub open spec fn model_leq() -> spec_fn(ItemModel, ItemModel) -> bool {
    |a: ItemModel, b: ItemModel| model_le(a, b)
}

/// The scanner's ordering is a total order.
pub proof fn lemma_model_le_total_ordering()
    ensures
        total_ordering(model_leq()),
{
    let leq = model_leq();
    assert forall|x: ItemModel| #[trigger] leq(x, x) by {
        lemma_lex_le_refl(x.name);
    }
    assert forall|x: ItemModel, y: ItemModel| #[trigger] leq(x, y) && #[trigger] leq(y, x)
        implies x == y by {
        if x.name != y.name {
            lemma_lex_le_antisym(x.name, y.name);
        } else {
            assert(x =~= y);
        }
    }
    assert forall|x: ItemModel, y: ItemModel, z: ItemModel|
        #[trigger] leq(x, y) && #[trigger] leq(y, z) implies leq(x, z) by {
        if x.name == y.name {
            lemma_lex_le_refl(x.name);
        }
        if y.name == z.name {
            lemma_lex_le_refl(y.name);
        }
        lemma_lex_le_trans(x.name, y.name, z.name);
        if x.name == z.name && x.name != y.name {
            lemma_lex_le_antisym(x.name, y.name);
        }
    }
    assert forall|x: ItemModel, y: ItemModel| #![trigger leq(x, y)] leq(x, y) || leq(y, x) by {
        if x.name != y.name {
            lemma_lex_le_total(x.name, y.name);
        }
    }
}

/// Whether `a` comes at or before `b` in the scanner's ordering.
pub fn item_le(a: &LibraryItem, b: &LibraryItem) -> (r: bool)
    ensures
        r == model_le(a@, b@),
{
    if a.name == b.name {
        if a.is_dir != b.is_dir {
            !a.is_dir
        } else if a.has_child_dir != b.has_child_dir {
            !a.has_child_dir
        } else if a.has_child_file != b.has_child_file {
            !a.has_child_file
        } else {
            true
        }
    } else {
        str_le(a.name.as_str(), b.name.as_str())
    }
}

/// Inserts `item` before the first entry that must follow it, keeping the
/// vector sorted; returns the insertion position.
fn insert_sorted(r: &mut Vec<LibraryItem>, item: LibraryItem) -> (idx: usize)
    requires
        sorted_by(old(r).deep_view(), model_leq()),
    ensures
        idx <= old(r)@.len(),
        final(r)@ == old(r)@.insert(idx as int, item),
        final(r).deep_view() == old(r).deep_view().insert(idx as int, item@),
        sorted_by(final(r).deep_view(), model_leq()),
{
    let ghost leq = model_leq();
    let mut idx: usize = 0;
    while idx < r.len() && item_le(&r[idx], &item)
        invariant
            idx <= r@.len(),
            *r == *old(r),
            forall|k: int| 0 <= k < idx ==> model_le(#[trigger] r.deep_view()[k], item@),
        decreases r@.len() - idx,
    {
        idx += 1;
    }
    proof {
        lemma_model_le_total_ordering();
        if idx < r@.len() {
            assert(leq(item@, r.deep_view()[idx as int]) || leq(
                r.deep_view()[idx as int],
                item@,
            ));
            assert(model_le(item@, r.deep_view()[idx as int]));
        }
    }
    let ghost old_deep = r.deep_view();
    r.insert(idx, item);
    proof {
        assert(r.deep_view() =~= old_deep.insert(idx as int, item@));
        let nd = r.deep_view();
        assert forall|i: int, j: int| 0 <= i < j < nd.len() implies leq(nd[i], nd[j]) by {
            if j < idx {
                assert(leq(old_deep[i], old_deep[j]));
            } else if i > idx {
                assert(leq(old_deep[i - 1], old_deep[j - 1]));
            } else if i == idx && j > idx {
                assert(model_le(item@, old_deep[idx as int]));
                if j - 1 > idx {
                    assert(leq(old_deep[idx as int], old_deep[j - 1]));
                }
            } else if j == idx {
                assert(model_le(nd[i], item@));
            } else if i < idx && j > idx {
                assert(model_le(old_deep[i], item@));
                assert(model_le(item@, old_deep[idx as int]));
                if j - 1 > idx {
                    assert(leq(old_deep[idx as int], old_deep[j - 1]));
                }
            }
        }
    }
    idx
}

/// Sorts the entries by the scanner's ordering; the result holds exactly the
/// input entries.
pub fn sort_items(items: Vec<LibraryItem>) -> (r: Vec<LibraryItem>)
    ensures
        sorted_by(r.deep_view(), model_leq()),
        r.deep_view().to_multiset() == items.deep_view().to_multiset(),
{
    let ghost orig = items.deep_view();
    let mut src = items;
    let mut out: Vec<LibraryItem> = Vec::new();
    proof {
        broadcast use vstd::seq_lib::group_to_multiset_ensures;
        broadcast use vstd::multiset::group_multiset_axioms;
        broadcast use vstd::multiset::lemma_multiset_empty_len;

        assert(out.deep_view() =~= Seq::<ItemModel>::empty());
        assert(out.deep_view().to_multiset().len() == 0);
        assert(out.deep_view().to_multiset() =~= Multiset::empty());
        assert(out.deep_view().to_multiset().add(src.deep_view().to_multiset())
            =~= orig.to_multiset());
    }
    while src.len() > 0
        invariant
            sorted_by(out.deep_view(), model_leq()),
            out.deep_view().to_multiset().add(src.deep_view().to_multiset())
                == orig.to_multiset(),
        decreases src@.len(),
    {
        let ghost src_deep = src.deep_view();
        let ghost out_deep = out.deep_view();
        let x = src.pop().unwrap();
        proof {
            broadcast use vstd::seq_lib::group_to_multiset_ensures;
            broadcast use vstd::multiset::group_multiset_axioms;

            assert(src_deep =~= src.deep_view().push(x@));
            assert(src_deep.to_multiset() == src.deep_view().to_multiset().insert(x@));
        }
        insert_sorted(&mut out, x);
        proof {
            broadcast use vstd::seq_lib::group_to_multiset_ensures;
            broadcast use vstd::multiset::group_multiset_axioms;

            assert(out.deep_view().to_multiset() == out_deep.to_multiset().insert(x@));
            assert(out.deep_view().to_multiset().add(src.deep_view().to_multiset())
                =~= orig.to_multiset());
        }
    }
    proof {
        broadcast use vstd::seq_lib::group_to_multiset_ensures;
        broadcast use vstd::multiset::group_multiset_axioms;
        broadcast use vstd::multiset::lemma_multiset_empty_len;

        assert(src.deep_view() =~= Seq::<ItemModel>::empty());
        assert(src.deep_view().to_multiset().len() == 0);
        assert(out.deep_view().to_multiset() =~= orig.to_multiset());
    }
    out
}

/// The scanner's computational core, applied to the classification outcome
/// of each listed child: drops failed classifications and empty directories,
/// then sorts by the scanner's ordering. Never fails: a bad entry is
/// skipped, not fatal.
pub fn scan_classified(results: &Vec<Option<LibraryItem>>) -> (r: Vec<LibraryItem>)
    ensures
        sorted_by(r.deep_view(), model_leq()),
        r.deep_view().to_multiset() == collected(results.deep_view()).to_multiset(),
        forall|i: int| 0 <= i < r.deep_view().len() ==> keep(#[trigger] r.deep_view()[i]),
{
    let items = collect_items(results);
    let ghost coll = collected(results.deep_view());
    let r = sort_items(items);
    proof {
        broadcast use vstd::seq_lib::group_to_multiset_ensures;
        broadcast use vstd::multiset::group_multiset_axioms;

        lemma_collected_keep(results.deep_view());
        let rd = r.deep_view();
        assert forall|i: int| 0 <= i < rd.len() implies keep(rd[i]) by {
            assert(rd.to_multiset().count(rd[i]) > 0);
            assert(coll.to_multiset().count(rd[i]) > 0);
            assert(coll.contains(rd[i]));
            let k = choose|k: int| 0 <= k < coll.len() && coll[k] == rd[i];
            assert(keep(coll[k]));
        }
    }
    r
}

/// Two scans that found the same entries return the same sequence: the
/// output order is reproducible, independent of filesystem iteration order.
pub proof fn lemma_scan_deterministic(x: Seq<ItemModel>, y: Seq<ItemModel>)
    requires
        sorted_by(x, model_leq()),
        sorted_by(y, model_leq()),
        x.to_multiset() == y.to_multiset(),
    ensures
        x == y,
{
    lemma_model_le_total_ordering();
    lemma_sorted_unique(x, y, model_leq());
    assert(x =~= y);
}

/// The entries whose names contain `q` as a literal substring, in their
/// original relative order; an empty query keeps everything.
pub open spec fn spec_filter(s: Seq<ItemModel>, q: Seq<char>) -> Seq<ItemModel>
    decreases s.len(),
{
    if q.len() == 0 {
        s
    } else if s.len() == 0 {
        Seq::empty()
    } else {
        let rest = spec_filter(s.drop_last(), q);
        if spec_contains(s.last().name, q) {
            rest.push(s.last())
        } else {
            rest
        }
    }
}

/// Keeps the entries whose name contains `query` as a literal substring, in
/// their original order; an empty query is a passthrough that returns the
/// input unchanged.
pub fn filter_items(items: Vec<LibraryItem>, query: &str) -> (r: Vec<LibraryItem>)
    ensures
        r.deep_view() == spec_filter(items.deep_view(), query@),
        query@.len() == 0 ==> r == items,
{
    if query.is_empty() {
        items
    } else {
        let mut r: Vec<LibraryItem> = Vec::new();
        proof {
            assert(r.deep_view() =~= spec_filter(items.deep_view().take(0), query@));
        }
        let mut i: usize = 0;
        while i < items.len()
            invariant
                i <= items@.len(),
                query@.len() > 0,
                r.deep_view() == spec_filter(items.deep_view().take(i as int), query@),
            decreases items@.len() - i,
        {
            let ghost prefix = items.deep_view().take(i as int);
            let ghost old_deep = r.deep_view();
            let item = &items[i];
            if str_contains(item.name.as_str(), query) {
                r.push(item.clone());
                proof {
                    assert(r.deep_view() =~= old_deep.push(item@));
                }
            }
            proof {
                assert(items.deep_view().take(i + 1).drop_last() =~= prefix);
                assert(items.deep_view().take(i + 1).last() == items.deep_view()[i as int]);
            }
            i += 1;
        }
        proof {
            assert(items.deep_view().take(items@.len() as int) =~= items.deep_view());
        }
        r
    }
}

/// The positions in `s` of the entries that the filter keeps, in increasing
/// order.
pub open spec fn filter_positions(s: Seq<ItemModel>, q: Seq<char>) -> Seq<int>
    decreases s.len(),
{
    if s.len() == 0 {
        Seq::empty()
    } else {
        let rest = filter_positions(s.drop_last(), q);
        if spec_contains(s.last().name, q) {
            rest.push(s.len() - 1)
        } else {
            rest
        }
    }
}

/// For a non-empty query, the filter keeps exactly the entries whose name
/// contains the query, in their original relative order: the result is the
/// subsequence of `s` read off at the strictly increasing positions
/// `filter_positions`, and those positions are exactly the positions of the
/// matching entries.
pub proof fn lemma_filter_matches(s: Seq<ItemModel>, q: Seq<char>)
    requires
        q.len() > 0,
    ensures
        ({
            let f = spec_filter(s, q);
            let pos = filter_positions(s, q);
            &&& pos.len() == f.len()
            &&& forall|i: int, j: int|
                0 <= i < j < pos.len() ==> #[trigger] pos[i] < #[trigger] pos[j]
            &&& forall|i: int|
                0 <= i < pos.len() ==> 0 <= #[trigger] pos[i] < s.len() && f[i] == s[pos[i]]
                    && spec_contains(s[pos[i]].name, q)
            &&& forall|k: int|
                0 <= k < s.len() ==> (pos.contains(k) <==> spec_contains(
                    #[trigger] s[k].name,
                    q,
                ))
        }),
    decreases s.len(),
{
    let f = spec_filter(s, q);
    let pos = filter_positions(s, q);
    if s.len() == 0 {
    } else {
        let t = s.drop_last();
        lemma_filter_matches(t, q);
        let ft = spec_filter(t, q);
        let post = filter_positions(t, q);
        assert forall|k: int| 0 <= k < s.len() implies (pos.contains(k) <==> spec_contains(
            s[k].name,
            q,
        )) by {
            if k < s.len() - 1 {
                assert(t[k] == s[k]);
                if post.contains(k) {
                    let i = choose|i: int| 0 <= i < post.len() && post[i] == k;
                    assert(pos[i] == k);
                    assert(pos.contains(k));
                }
                if pos.contains(k) {
                    let i = choose|i: int| 0 <= i < pos.len() && pos[i] == k;
                    if i < post.len() {
                        assert(post[i] == k);
                        assert(post.contains(k));
                    }
                }
            } else {
                if spec_contains(s[k].name, q) {
                    assert(pos[pos.len() - 1] == k);
                    assert(pos.contains(k));
                } else {
                    if pos.contains(k) {
                        let i = choose|i: int| 0 <= i < pos.len() && pos[i] == k;
                        assert(post[i] == k);
                        assert(0 <= k < t.len());
                    }
                }
            }
        }
    }
}

/// The configured library root; maps a logical sub-path to the path string
/// handed to the scanner.
pub struct LibraryRoot {
    pub root: String,
}

impl LibraryRoot {
    /// Wraps the configured root directory path.
    pub fn new(root: String) -> (r: LibraryRoot)
        ensures
            r.root@ == root@,
    {
        LibraryRoot { root }
    }

    /// Joins the root and a caller-supplied sub-path with a `/` separator.
    /// Performs no existence check: a missing target surfaces later as the
    /// scanner's `NotFound`.
    pub fn resolve(&self, sub_path: &str) -> (r: String)
        ensures
            r@ == self.root@ + seq!['/'] + sub_path@,
    {
        let mut r = self.root.clone();
        r.append("/");
        r.append(sub_path);
        proof {
            reveal_strlit("/");
            assert(r@ =~= self.root@ + seq!['/'] + sub_path@);
        }
        r
    }
}

} // verus!
