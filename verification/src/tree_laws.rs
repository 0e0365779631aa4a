//! What holds of trees: the order of their entries, and that a directory
//! without files has no tree.

use vstd::prelude::*;
use vstd::seq_lib::{to_multiset_build, to_multiset_contains, to_multiset_insert};
use crate::codec::{hex_bytes, hex_text};
use crate::commands::written_tree;
use crate::common::{ErrorKind, ObjectMode, TreeItemView};
use crate::reader::lemma_scan_until_word;
use crate::store::FileView;
use crate::text::{decimal, is_digit, lemma_decimal_digits, lemma_decimal_len, pow10};
use crate::tree_object_read::{
    entries, lemma_step_reads, mode_field, mode_of_text, name_field, parse_entry, step,
    TreeReadView,
};
use crate::tree_object_write::{
    classified, entry_bytes, entry_mode, entry_order, entry_outcome, first_difference, insert_point,
    items_outcome, lemma_first_difference, place_of, sorted_entries, tree_body, tree_outcome,
    DirEntry,
};

verus! {

/// An entry stands before another exactly where the other stands after it,
/// and they are at the same place exactly where the other way round they
/// are.
pub proof fn law_entry_order_mirrors(
    left: Seq<u8>,
    left_is_tree: bool,
    right: Seq<u8>,
    right_is_tree: bool,
)
    ensures
        entry_order(left, left_is_tree, right, right_is_tree) is Before <==> entry_order(
            right,
            right_is_tree,
            left,
            left_is_tree,
        ) is After,
        entry_order(left, left_is_tree, right, right_is_tree) is Same <==> entry_order(
            right,
            right_is_tree,
            left,
            left_is_tree,
        ) is Same,
{
    lemma_first_difference(left, right);
}

/// Two entries of different names that hold no `/` and no zero byte are never
/// at the same place, and neither are a directory and a file of one name.
pub proof fn law_entry_order_tells_apart(
    left: Seq<u8>,
    left_is_tree: bool,
    right: Seq<u8>,
    right_is_tree: bool,
)
    requires
        forall|i: int| 0 <= i < left.len() ==> left[i] != 47 && left[i] != 0,
        forall|i: int| 0 <= i < right.len() ==> right[i] != 47 && right[i] != 0,
        left != right || left_is_tree != right_is_tree,
    ensures
        !(entry_order(left, left_is_tree, right, right_is_tree) is Same),
{
    lemma_first_difference(left, right);
    let at = first_difference(left, right);
    if at == left.len() && at == right.len() {
        assert(left =~= right);
    }
}

/// `first_difference` is the one index up to which two names agree and at
/// which they differ or one of them ends.
pub proof fn lemma_first_difference_is(left: Seq<u8>, right: Seq<u8>, at: int)
    requires
        0 <= at <= left.len(),
        at <= right.len(),
        forall|i: int| 0 <= i < at ==> left[i] == right[i],
        at < left.len() && at < right.len() ==> left[at] != right[at],
    ensures
        first_difference(left, right) == at,
{
    lemma_first_difference(left, right);
}

/// An entry that stands before a second, which stands before a third,
/// stands before the third.
pub proof fn law_entry_order_transitive(
    first: Seq<u8>,
    first_is_tree: bool,
    second: Seq<u8>,
    second_is_tree: bool,
    third: Seq<u8>,
    third_is_tree: bool,
)
    requires
        entry_order(first, first_is_tree, second, second_is_tree) is Before,
        entry_order(second, second_is_tree, third, third_is_tree) is Before,
    ensures
        entry_order(first, first_is_tree, third, third_is_tree) is Before,
{
    lemma_first_difference(first, second);
    lemma_first_difference(second, third);
    let i = first_difference(first, second);
    let j = first_difference(second, third);
    let at = if i < j {
        i
    } else {
        j
    };
    assert forall|k: int| 0 <= k < at implies first[k] == third[k] by {
        assert(first[k] == second[k]);
        assert(second[k] == third[k]);
    }
    lemma_first_difference_is(first, third, at);
}

/// Whether a name holds no `/` and no zero byte.
pub open spec fn plain_name(name: Seq<u8>) -> bool {
    forall|i: int| 0 <= i < name.len() ==> name[i] != 47 && name[i] != 0
}

/// Whether the entries `list` of the directory `dir` are such as a file
/// system lists: their names are plain, and no two have the same name.
pub open spec fn listed_once(dir: Seq<DirEntry>, list: Seq<(usize, ObjectMode)>) -> bool {
    &&& forall|k: int| 0 <= k < list.len() ==> plain_name(dir[(#[trigger] list[k]).0 as int].name@)
    &&& forall|k: int, l: int|
        0 <= k < l < list.len() ==> dir[(#[trigger] list[k]).0 as int].name@ != dir[(
        #[trigger] list[l]).0 as int].name@
}

/// Among the sorted entries of a directory as a file system lists it, each
/// stands before every one that comes later: the order of a tree leaves
/// nothing open.
pub proof fn law_sorted_strictly(dir: Seq<DirEntry>, list: Seq<(usize, ObjectMode)>)
    requires
        listed_once(dir, list),
    ensures
        forall|i: int, j: int|
            0 <= i < j < sorted_entries(dir, list).len() ==> place_of(
                dir,
                #[trigger] sorted_entries(dir, list)[i],
                #[trigger] sorted_entries(dir, list)[j],
            ) is Before,
        forall|i: int|
            0 <= i < sorted_entries(dir, list).len() ==> list.contains(
                #[trigger] sorted_entries(dir, list)[i],
            ),
    decreases list.len(),
{
    let sorted = sorted_entries(dir, list);
    law_sorted_is_permutation(dir, list);
    assert forall|i: int| 0 <= i < sorted.len() implies list.contains(#[trigger] sorted[i]) by {
        assert(sorted.contains(sorted[i]));
        to_multiset_contains(sorted, sorted[i]);
        to_multiset_contains(list, sorted[i]);
    }
    if list.len() > 0 {
        let front = list.drop_last();
        let entry = list.last();
        let before = sorted_entries(dir, front);
        assert forall|k: int| 0 <= k < front.len() implies front[k] == list[k] by {}
        assert(listed_once(dir, front)) by {
            assert forall|k: int| 0 <= k < front.len() implies plain_name(
                dir[(#[trigger] front[k]).0 as int].name@,
            ) by {
                assert(front[k] == list[k]);
            }
            assert forall|k: int, l: int| 0 <= k < l < front.len() implies dir[(
            #[trigger] front[k]).0 as int].name@ != dir[(#[trigger] front[l]).0 as int].name@ by {
                assert(front[k] == list[k] && front[l] == list[l]);
            }
        }
        law_sorted_strictly(dir, front);
        lemma_insert_point(dir, before, entry);
        let at = insert_point(dir, before, entry);
        assert(sorted == before.insert(at, entry));
        assert forall|i: int, j: int| 0 <= i < j < sorted.len() implies place_of(
            dir,
            #[trigger] sorted[i],
            #[trigger] sorted[j],
        ) is Before by {
            if j < at {
                assert(sorted[i] == before[i] && sorted[j] == before[j]);
            } else if j == at {
                assert(sorted[i] == before[i] && sorted[j] == entry);
                lemma_differs_from_last(dir, list, before[i]);
                law_entry_order_tells_apart(
                    dir[before[i].0 as int].name@,
                    before[i].1 is Tree,
                    dir[entry.0 as int].name@,
                    entry.1 is Tree,
                );
            } else if i == at {
                assert(sorted[i] == entry && sorted[j] == before[j - 1]);
                law_entry_order_mirrors(
                    dir[before[at].0 as int].name@,
                    before[at].1 is Tree,
                    dir[entry.0 as int].name@,
                    entry.1 is Tree,
                );
                if j - 1 > at {
                    law_entry_order_transitive(
                        dir[entry.0 as int].name@,
                        entry.1 is Tree,
                        dir[before[at].0 as int].name@,
                        before[at].1 is Tree,
                        dir[before[j - 1].0 as int].name@,
                        before[j - 1].1 is Tree,
                    );
                }
            } else if i < at {
                assert(sorted[i] == before[i] && sorted[j] == before[j - 1]);
            } else {
                assert(sorted[i] == before[i - 1] && sorted[j] == before[j - 1]);
            }
        }
    }
}

/// An entry among all but the last of a listing as a file system gives it
/// has a plain name that is not the name of the last.
pub proof fn lemma_differs_from_last(
    dir: Seq<DirEntry>,
    list: Seq<(usize, ObjectMode)>,
    entry: (usize, ObjectMode),
)
    requires
        list.len() > 0,
        listed_once(dir, list),
        list.drop_last().contains(entry),
    ensures
        plain_name(dir[entry.0 as int].name@),
        plain_name(dir[list.last().0 as int].name@),
        dir[entry.0 as int].name@ != dir[list.last().0 as int].name@,
{
    let front = list.drop_last();
    let k = choose|k: int| 0 <= k < front.len() && front[k] == entry;
    assert(list[k] == entry);
    assert(list[list.len() - 1] == list.last());
}

/// Where an entry goes into a sorted list lies inside the list or at its
/// end; what stands there stands after the entry, and what stands just
/// before does not.
pub proof fn lemma_insert_point(
    dir: Seq<DirEntry>,
    sorted: Seq<(usize, ObjectMode)>,
    entry: (usize, ObjectMode),
)
    ensures
        0 <= insert_point(dir, sorted, entry) <= sorted.len(),
        insert_point(dir, sorted, entry) < sorted.len() ==> place_of(
            dir,
            sorted[insert_point(dir, sorted, entry)],
            entry,
        ) is After,
        forall|i: int|
            0 <= i < insert_point(dir, sorted, entry) ==> !(place_of(
                dir,
                #[trigger] sorted[i],
                entry,
            ) is After),
    decreases sorted.len(),
{
    if sorted.len() != 0 && !(place_of(dir, sorted[0], entry) is After) {
        let tail = sorted.skip(1);
        lemma_insert_point(dir, tail, entry);
        assert forall|i: int| 0 <= i < insert_point(dir, sorted, entry) implies !(place_of(
            dir,
            #[trigger] sorted[i],
            entry,
        ) is After) by {
            if i > 0 {
                assert(sorted[i] == tail[i - 1]);
            }
        }
    }
}

/// The sorted entries are the given entries in another order.
pub proof fn law_sorted_is_permutation(dir: Seq<DirEntry>, list: Seq<(usize, ObjectMode)>)
    ensures
        sorted_entries(dir, list).to_multiset() == list.to_multiset(),
        sorted_entries(dir, list).len() == list.len(),
    decreases list.len(),
{
    if list.len() > 0 {
        let front = list.drop_last();
        let entry = list.last();
        let before = sorted_entries(dir, front);
        law_sorted_is_permutation(dir, front);
        lemma_insert_point(dir, before, entry);
        let at = insert_point(dir, before, entry);
        to_multiset_insert(before, at, entry);
        assert(front.push(entry) == list);
        to_multiset_build(front, entry);
        assert(sorted_entries(dir, list) == before.insert(at, entry));
        assert(sorted_entries(dir, list).to_multiset() =~= list.to_multiset());
    } else {
        assert(list =~= Seq::empty());
        assert(sorted_entries(dir, list) =~= list);
    }
}

/// Among the sorted entries none stands after the one that follows it.
pub proof fn law_sorted_in_order(dir: Seq<DirEntry>, list: Seq<(usize, ObjectMode)>, i: int)
    requires
        0 <= i < sorted_entries(dir, list).len() - 1,
    ensures
        !(place_of(dir, sorted_entries(dir, list)[i], sorted_entries(dir, list)[i + 1]) is After),
    decreases list.len(),
{
    let sorted = sorted_entries(dir, list);
    if list.len() > 0 {
        let front = list.drop_last();
        let entry = list.last();
        let before = sorted_entries(dir, front);
        lemma_insert_point(dir, before, entry);
        let at = insert_point(dir, before, entry);
        assert(sorted == before.insert(at, entry));
        if i + 1 < at {
            law_sorted_in_order(dir, front, i);
            assert(sorted[i] == before[i] && sorted[i + 1] == before[i + 1]);
        } else if i + 1 == at {
            assert(sorted[i] == before[i] && sorted[i + 1] == entry);
        } else if i == at {
            assert(sorted[i] == entry && sorted[i + 1] == before[at]);
            law_entry_order_mirrors(
                dir[before[at].0 as int].name@,
                before[at].1 is Tree,
                dir[entry.0 as int].name@,
                entry.1 is Tree,
            );
        } else {
            law_sorted_in_order(dir, front, i - 1);
            assert(sorted[i] == before[i - 1] && sorted[i + 1] == before[i]);
        }
    }
}

/// Every entry that a listing has for a tree names an entry of the listing,
/// with the mode of that entry.
pub proof fn lemma_classified_members(dir: Seq<DirEntry>)
    requires
        classified(dir) is Ok,
        dir.len() <= usize::MAX,
    ensures
        forall|k: int|
            0 <= k < classified(dir)->Ok_0.len() ==> {
                let entry = #[trigger] classified(dir)->Ok_0[k];
                entry.0 < dir.len() && entry_mode(dir[entry.0 as int]) == Ok::<
                    Option<ObjectMode>,
                    ErrorKind,
                >(Some(entry.1))
            },
    decreases dir.len(),
{
    if dir.len() > 0 {
        let front = dir.drop_last();
        lemma_classified_members(front);
        let list = classified(dir)->Ok_0;
        let before = classified(front)->Ok_0;
        assert forall|k: int| 0 <= k < list.len() implies {
            let entry = #[trigger] list[k];
            entry.0 < dir.len() && entry_mode(dir[entry.0 as int]) == Ok::<
                Option<ObjectMode>,
                ErrorKind,
            >(Some(entry.1))
        } by {
            if k < before.len() {
                assert(list[k] == before[k]);
                assert(dir[before[k].0 as int] == front[before[k].0 as int]);
            } else {
                assert(list[k].0 == dir.len() - 1);
            }
        }
    }
}

/// Whether a directory holds no file, directly or below it: it holds nothing
/// but the repository's own directory and directories that hold no file.
pub open spec fn holds_no_file(dir: Seq<DirEntry>) -> bool
    decreases dir,
{
    forall|i: int|
        0 <= i < dir.len() ==> match entry_mode(#[trigger] dir[i]) {
            Ok(None) => true,
            Ok(Some(mode)) => mode is Tree && holds_no_file(dir[i].children@),
            Err(_) => false,
        }
}

/// Whether a listing and every listing below it can be counted: none has
/// more entries than fit in memory.
pub open spec fn listing_fits(dir: Seq<DirEntry>) -> bool
    decreases dir,
{
    &&& dir.len() <= usize::MAX
    &&& forall|i: int| 0 <= i < dir.len() ==> listing_fits((#[trigger] dir[i]).children@)
}

/// A directory that holds no file, directly or below it, has no tree:
/// hashing it gives `None` and writes nothing.
pub proof fn law_empty_directories(files: Seq<FileView>, dir: Seq<DirEntry>, write_files: bool)
    requires
        holds_no_file(dir),
        listing_fits(dir),
    ensures
        tree_outcome(files, dir, write_files) == (
            Ok::<Option<Seq<char>>, ErrorKind>(None),
            files,
            Seq::<u8>::empty(),
        ),
    decreases dir, 1nat, 0nat,
{
    lemma_holds_no_file_classified(dir, dir.len() as int);
    assert(dir.take(dir.len() as int) == dir);
    let list = classified(dir)->Ok_0;
    let order = sorted_entries(dir, list);
    lemma_classified_members(dir);
    law_sorted_is_permutation(dir, list);
    assert forall|k: int| 0 <= k < order.len() implies (#[trigger] order[k]).0 < dir.len()
        && entry_mode(dir[order[k].0 as int]) == Ok::<Option<ObjectMode>, ErrorKind>(
        Some(order[k].1),
    ) by {
        assert(order.contains(order[k]));
        to_multiset_contains(order, order[k]);
        to_multiset_contains(list, order[k]);
        let m = choose|m: int| 0 <= m < list.len() && list[m] == order[k];
        assert(list[m] == order[k]);
    }
    lemma_items_of_empty_directories(files, dir, order, order.len(), write_files);
}

/// Writing the tree of a directory that holds no file, directly or below
/// it, fails as an empty tree and writes nothing.
pub proof fn law_empty_root(files: Seq<FileView>, root: Seq<DirEntry>, dry_run: bool)
    requires
        holds_no_file(root),
        listing_fits(root),
    ensures
        written_tree(files, root, dry_run) == (
            Err::<Seq<char>, ErrorKind>(ErrorKind::EmptyTree),
            files,
            Seq::<u8>::empty(),
        ),
{
    law_empty_directories(files, root, !dry_run);
}

/// No entry of a directory that holds no file gives a tree entry.
pub proof fn lemma_items_of_empty_directories(
    files: Seq<FileView>,
    dir: Seq<DirEntry>,
    order: Seq<(usize, ObjectMode)>,
    count: nat,
    write_files: bool,
)
    requires
        holds_no_file(dir),
        listing_fits(dir),
        count <= order.len(),
        forall|k: int|
            0 <= k < order.len() ==> (#[trigger] order[k]).0 < dir.len() && entry_mode(
                dir[order[k].0 as int],
            ) == Ok::<Option<ObjectMode>, ErrorKind>(Some(order[k].1)),
    ensures
        items_outcome(files, dir, order, count, write_files) == (
            Ok::<Seq<TreeItemView>, ErrorKind>(Seq::empty()),
            files,
            Seq::<u8>::empty(),
        ),
    decreases dir, 0nat, count,
{
    if count > 0 {
        lemma_items_of_empty_directories(files, dir, order, (count - 1) as nat, write_files);
        let (index, mode) = order[count - 1];
        assert(entry_mode(dir[index as int]) == Ok::<Option<ObjectMode>, ErrorKind>(Some(mode)));
        assert(mode is Tree && holds_no_file(dir[index as int].children@));
        law_empty_directories(files, dir[index as int].children@, write_files);
        assert(entry_outcome(files, dir[index as int], mode, write_files) == (
            Ok::<Option<TreeItemView>, ErrorKind>(None),
            files,
            Seq::<u8>::empty(),
        ));
    }
}

/// The start of a directory that holds no file has entries for a tree, that
/// is, the listing does not fail.
pub proof fn lemma_holds_no_file_classified(dir: Seq<DirEntry>, count: int)
    requires
        holds_no_file(dir),
        0 <= count <= dir.len(),
    ensures
        classified(dir.take(count)) is Ok,
    decreases count,
{
    if count > 0 {
        lemma_holds_no_file_classified(dir, count - 1);
        assert(dir.take(count).drop_last() == dir.take(count - 1));
        assert(dir.take(count).last() == dir[count - 1]);
        assert(entry_mode(dir[count - 1]) is Ok);
    }
}

/// Whether a tree entry can be written and read again: its name is not
/// empty and holds no zero byte, and its hash is 40 lowercase hexadecimal
/// digits.
pub open spec fn readable_item(item: TreeItemView) -> bool {
    &&& 0 < item.file_name.len() < u64::MAX
    &&& forall|i: int| 0 <= i < item.file_name.len() ==> item.file_name[i] != 0
    &&& item.hash.len() == 40
    &&& hex_text(hex_bytes(item.hash)) == item.hash
}

/// The body of a tree is the bytes of its first entry, then the body of the
/// tree of the other entries.
pub proof fn lemma_tree_body_front(items: Seq<TreeItemView>)
    requires
        items.len() > 0,
    ensures
        tree_body(items) == entry_bytes(items[0]) + tree_body(items.skip(1)),
    decreases items.len(),
{
    let front = items.drop_last();
    if items.len() == 1 {
        assert(front =~= Seq::<TreeItemView>::empty());
        assert(items.skip(1) =~= Seq::<TreeItemView>::empty());
        assert(tree_body(items) =~= entry_bytes(items[0]) + tree_body(items.skip(1)));
    } else {
        lemma_tree_body_front(front);
        assert(items.skip(1).drop_last() == front.skip(1));
        assert(items.skip(1).last() == items.last());
        assert(front[0] == items[0]);
        assert(tree_body(items) =~= entry_bytes(items[0]) + tree_body(items.skip(1)));
    }
}

/// Reading the bytes that were written for an entry gives the entry, and
/// takes exactly those bytes.
pub proof fn lemma_parse_written_entry(item: TreeItemView, tail: Seq<u8>)
    requires
        readable_item(item),
    ensures
        parse_entry(entry_bytes(item) + tail, (entry_bytes(item) + tail).len()) == Ok::<
            Option<(TreeItemView, nat)>,
            ErrorKind,
        >(Some((item, entry_bytes(item).len()))),
{
    let rest = entry_bytes(item) + tail;
    let window = rest.take(rest.len() as int);
    assert(window == rest);
    let code = item.mode.spec_code();
    let digits = decimal(code);
    let raw = hex_bytes(item.hash);
    lemma_decimal_digits(code);
    assert(pow10(6) == 1000000) by {
        reveal_with_fuel(pow10, 7);
    }
    lemma_decimal_len(code, 6);
    assert forall|i: int| 0 <= i < digits.len() implies digits[i] != 32 by {
        assert(is_digit(digits[i]));
    }
    let after_digits = item.file_name + seq![0u8] + raw + tail;
    assert(rest =~= digits + seq![32u8] + after_digits);
    lemma_scan_until_word(digits, 32, after_digits, 10);
    assert(rest[digits.len() as int] == 32);
    assert(rest.take(digits.len() as int) =~= digits);
    assert(mode_field(window) == Ok::<Option<Seq<u8>>, ErrorKind>(Some(digits)));
    assert(mode_of_text(digits) == Ok::<ObjectMode, ErrorKind>(item.mode));
    let after_mode = window.skip(digits.len() as int + 1);
    assert(after_mode =~= item.file_name + seq![0u8] + (raw + tail));
    lemma_scan_until_word(item.file_name, 0, raw + tail, u64::MAX as nat);
    assert(after_mode[item.file_name.len() as int] == 0);
    assert(after_mode.take(item.file_name.len() as int) =~= item.file_name);
    assert(name_field(after_mode) == Ok::<Seq<u8>, ErrorKind>(item.file_name));
    let after_name = after_mode.skip(item.file_name.len() as int + 1);
    assert(after_name =~= raw + tail);
    assert(after_name.take(20) =~= raw);
}

/// Reading the body that was written for the entries `items` gives those
/// entries, in their order, and then the end of the tree.
pub proof fn law_tree_round_trip(tree: TreeReadView, items: Seq<TreeItemView>)
    requires
        forall|i: int| 0 <= i < items.len() ==> readable_item(#[trigger] items[i]),
        tree.rest == Some(tree_body(items)),
        tree.left == tree_body(items).len(),
    ensures
        entries(tree).0 == items,
        entries(tree).1 == Ok::<(), ErrorKind>(()),
        entries(tree).2.rest is None,
    decreases items.len(),
{
    if items.len() == 0 {
        assert(tree_body(items) =~= Seq::<u8>::empty());
        assert(parse_entry(tree.rest->0, tree.left) == Ok::<
            Option<(TreeItemView, nat)>,
            ErrorKind,
        >(None));
        assert(items =~= Seq::<TreeItemView>::empty());
    } else {
        let tail = tree_body(items.skip(1));
        lemma_tree_body_front(items);
        assert(readable_item(items[0]));
        lemma_parse_written_entry(items[0], tail);
        let taken = entry_bytes(items[0]).len();
        let next = step(tree).0;
        assert(next.rest == Some((entry_bytes(items[0]) + tail).skip(taken as int)));
        assert((entry_bytes(items[0]) + tail).skip(taken as int) =~= tail);
        lemma_step_reads(tree);
        assert forall|i: int| 0 <= i < items.skip(1).len() implies readable_item(
            #[trigger] items.skip(1)[i],
        ) by {
            assert(items.skip(1)[i] == items[i + 1]);
        }
        law_tree_round_trip(next, items.skip(1));
        assert(seq![items[0]] + items.skip(1) =~= items);
    }
}

} // verus!
