//! The class bookkeeping behind the ESP overlay: counting actors per class,
//! ranking the classes, the manual class selection and the per-actor class
//! filter.
use vstd::prelude::*;
use crate::memory::{ClassGroup, empty_group, CLASS_GROUP_COUNT, get_class_name, is_enemy_class_name, enemy_kind_of, EnemyKind, UOBJECT_NAME_OFFSET};
use crate::reader::{is_name_resolver, name_at, name_answered};
use crate::text::{is_prefix_of, is_infix_of, lowercase, str_contains, str_to_lowercase};

verus! {

broadcast use {vstd::seq_lib::group_seq_properties, vstd::std_specs::hash::group_hash_axioms};

/// Counts never increase along `s`.
pub open spec fn sorted_by_count_desc(s: Seq<ClassGroup>) -> bool {
    forall|i: int, j: int| 0 <= i < j < s.len() ==> #[trigger] s[i].count >= #[trigger] s[j].count
}

/// The groups of `s` whose count is `k`, in their order.
pub open spec fn with_count(s: Seq<ClassGroup>, k: i32) -> Seq<ClassGroup> {
    s.filter(count_is(k))
}

/// A group's count is `k`.
pub open spec fn count_is(k: i32) -> spec_fn(ClassGroup) -> bool {
    |g: ClassGroup| g.count == k
}

/// `output` is `input` sorted by descending count, with groups of equal
/// count kept in their input order.
pub open spec fn is_stable_count_sort(input: Seq<ClassGroup>, output: Seq<ClassGroup>) -> bool {
    &&& sorted_by_count_desc(output)
    &&& forall|k: i32| #[trigger] with_count(output, k) == with_count(input, k)
}

proof fn lemma_filter_none<A>(s: Seq<A>, pred: spec_fn(A) -> bool)
    requires
        forall|i: int| 0 <= i < s.len() ==> !pred(#[trigger] s[i]),
    ensures
        s.filter(pred) == Seq::<A>::empty(),
    decreases s.len(),
{
    reveal(Seq::filter);
    if s.len() > 0 {
        lemma_filter_none(s.drop_last(), pred);
    }
}

/// Inserting `x` at `j` in a sorted sequence where everything from `j` on has
/// a smaller count adds `x` to its count class only.
proof fn lemma_insert_keeps_stable(s: Seq<ClassGroup>, j: int, x: ClassGroup, k: i32)
    requires
        0 <= j <= s.len(),
        forall|t: int| j <= t < s.len() ==> #[trigger] s[t].count < x.count,
    ensures
        with_count(s.insert(j, x), k) == (if x.count == k {
            with_count(s, k).push(x)
        } else {
            with_count(s, k)
        }),
{
    let pred = count_is(k);
    let a = s.subrange(0, j);
    let b = s.subrange(j, s.len() as int);
    assert(s.insert(j, x) =~= a + seq![x] + b);
    assert(s =~= a + b);
    Seq::filter_distributes_over_add(a + seq![x], b, pred);
    Seq::filter_distributes_over_add(a, seq![x], pred);
    Seq::filter_distributes_over_add(a, b, pred);
    reveal_with_fuel(Seq::filter, 2);
    assert(seq![x].drop_last() =~= Seq::<ClassGroup>::empty());
    if x.count == k {
        lemma_filter_none(b, pred);
        assert(a.filter(pred) + seq![x] =~= a.filter(pred).push(x));
        assert(a.filter(pred) + Seq::<ClassGroup>::empty() =~= a.filter(pred));
    } else {
        assert(a.filter(pred) + Seq::<ClassGroup>::empty() =~= a.filter(pred));
    }
}

/// Inserting `x` at `j` in a sorted sequence, after everything with a count
/// at least its own and before everything with a smaller one, keeps it
/// sorted.
proof fn lemma_insert_keeps_sorted(s: Seq<ClassGroup>, j: int, x: ClassGroup)
    requires
        0 <= j <= s.len(),
        sorted_by_count_desc(s),
        forall|t: int| j <= t < s.len() ==> #[trigger] s[t].count < x.count,
        j > 0 ==> s[j - 1].count >= x.count,
    ensures
        sorted_by_count_desc(s.insert(j, x)),
{
    let n = s.insert(j, x);
    assert forall|a: int, b: int| 0 <= a < b < n.len() implies #[trigger] n[a].count >= #[trigger] n[b].count by {
        if a < j && b < j {
            assert(n[a] == s[a] && n[b] == s[b]);
        } else if a < j && b == j {
            assert(n[a] == s[a] && n[b] == x);
            assert(s[a].count >= s[j - 1].count);
        } else if a < j {
            assert(n[a] == s[a]);
            assert(n[b] == s[b - 1]);
            assert(s[a].count >= s[b - 1].count);
        } else if a == j {
            assert(n[a] == x && n[b] == s[b - 1]);
        } else {
            assert(n[a] == s[a - 1] && n[b] == s[b - 1]);
        }
    }
}

/// Sorts the groups by descending count, keeping groups of equal count in
/// their order.
pub fn sort_groups_by_count(groups: &mut Vec<ClassGroup>)
    ensures
        is_stable_count_sort(old(groups)@, final(groups)@),
{
    let ghost input = groups@;
    let mut sorted: Vec<ClassGroup> = Vec::new();
    let mut i: usize = 0;
    assert(input.take(0) =~= Seq::<ClassGroup>::empty());
    proof {
        assert forall|k: i32| #[trigger] with_count(sorted@, k) == with_count(input.take(0), k) by {
            reveal(Seq::filter);
        }
    }
    while i < groups.len()
        invariant
            groups@ == input,
            0 <= i <= input.len(),
            is_stable_count_sort(input.take(i as int), sorted@),
            sorted@.len() == i,
        decreases input.len() - i,
    {
        let x = groups[i];
        let mut j = sorted.len();
        while j > 0 && sorted[j - 1].count < x.count
            invariant
                0 <= j <= sorted@.len(),
                forall|t: int| j <= t < sorted@.len() ==> #[trigger] sorted@[t].count < x.count,
            decreases j,
        {
            j = j - 1;
        }
        let ghost before = sorted@;
        sorted.insert(j, x);
        proof {
            assert(input.take(i + 1) =~= input.take(i as int).push(x));
            assert forall|k: i32| #[trigger] with_count(sorted@, k) == with_count(input.take(i + 1), k) by {
                lemma_insert_keeps_stable(before, j as int, x, k);
                input.take(i as int).lemma_filter_push(x, count_is(k));
            }
            lemma_insert_keeps_sorted(before, j as int, x);
        }
        i = i + 1;
    }
    assert(input.take(input.len() as int) =~= input);
    *groups = sorted;
}

/// A nonempty filter result comes from some element that passes.
proof fn lemma_filter_nonempty<A>(s: Seq<A>, pred: spec_fn(A) -> bool)
    requires
        s.filter(pred).len() > 0,
    ensures
        exists|i: int| 0 <= i < s.len() && pred(#[trigger] s[i]),
    decreases s.len(),
{
    reveal(Seq::filter);
    if s.len() > 0 && !pred(s.last()) {
        lemma_filter_nonempty(s.drop_last(), pred);
        let i = choose|i: int| 0 <= i < s.drop_last().len() && pred(#[trigger] s.drop_last()[i]);
        assert(s[i] == s.drop_last()[i]);
    } else if s.len() > 0 {
        assert(pred(s[s.len() - 1]));
    }
}

/// Sorting by count is deterministic: the stable descending sort of a
/// sequence of groups is unique.
pub proof fn lemma_stable_count_sort_unique(input: Seq<ClassGroup>, s1: Seq<ClassGroup>, s2: Seq<ClassGroup>)
    requires
        is_stable_count_sort(input, s1),
        is_stable_count_sort(input, s2),
    ensures
        s1 == s2,
{
    lemma_same_count_classes(s1, s2);
}

/// Two sorted sequences with the same groups of each count are equal.
proof fn lemma_same_count_classes(s1: Seq<ClassGroup>, s2: Seq<ClassGroup>)
    requires
        sorted_by_count_desc(s1),
        sorted_by_count_desc(s2),
        forall|k: i32| #[trigger] with_count(s1, k) == with_count(s2, k),
    ensures
        s1 == s2,
    decreases s1.len() + s2.len(),
{
    reveal(Seq::filter);
    if s1.len() == 0 && s2.len() == 0 {
        assert(s1 =~= s2);
    } else if s1.len() == 0 {
        let m = s2.last().count;
        assert(with_count(s2, m).len() > 0);
        assert(with_count(s1, m).len() == 0);
    } else if s2.len() == 0 {
        let m = s1.last().count;
        assert(with_count(s1, m).len() > 0);
        assert(with_count(s2, m).len() == 0);
    } else {
        let m1 = s1.last().count;
        let m2 = s2.last().count;
        // each last count occurs in the other sequence, so neither is smaller
        assert(with_count(s1, m1).len() > 0);
        lemma_filter_nonempty(s2, count_is(m1));
        let q2 = choose|i: int| 0 <= i < s2.len() && count_is(m1)(#[trigger] s2[i]);
        assert(s2[q2].count >= s2[s2.len() - 1].count);
        assert(with_count(s2, m2).len() > 0);
        assert(with_count(s1, m2) == with_count(s2, m2));
        lemma_filter_nonempty(s1, count_is(m2));
        let q1 = choose|i: int| 0 <= i < s1.len() && count_is(m2)(#[trigger] s1[i]);
        assert(s1[q1].count >= s1[s1.len() - 1].count);
        assert(m1 == m2);
        assert(s1.last() == with_count(s1, m1).last());
        assert(s2.last() == with_count(s2, m1).last());
        let t1 = s1.drop_last();
        let t2 = s2.drop_last();
        assert forall|k: i32| #[trigger] with_count(t1, k) == with_count(t2, k) by {
            assert(with_count(s1, k) == with_count(s2, k));
            if k == m1 {
                assert(with_count(t1, k) == with_count(s1, k).drop_last());
                assert(with_count(t2, k) == with_count(s2, k).drop_last());
            }
        }
        lemma_same_count_classes(t1, t2);
        assert(s1 =~= t1.push(s1.last()));
        assert(s2 =~= t2.push(s2.last()));
    }
}

/// The groups for the overlay's class list: sorted by descending count
/// (stable), the first `CLASS_GROUP_COUNT` of them, and empty groups after.
pub fn top_class_groups(groups: Vec<ClassGroup>) -> (top: [ClassGroup; 64])
    ensures
        exists|s: Seq<ClassGroup>|
            #[trigger] is_stable_count_sort(groups@, s) && forall|i: int|
                0 <= i < CLASS_GROUP_COUNT ==> top@[i] == (if i < s.len() {
                    s[i]
                } else {
                    empty_group()
                }),
{
    let mut sorted = groups;
    sort_groups_by_count(&mut sorted);
    let mut top = [ClassGroup { class_ptr: 0, count: 0 }; 64];
    let mut i: usize = 0;
    while i < CLASS_GROUP_COUNT
        invariant
            0 <= i <= CLASS_GROUP_COUNT,
            forall|t: int| 0 <= t < i ==> top@[t] == (if t < sorted@.len() { sorted@[t] } else { empty_group() }),
            forall|t: int| i <= t < CLASS_GROUP_COUNT ==> top@[t] == empty_group(),
        decreases CLASS_GROUP_COUNT - i,
    {
        if i < sorted.len() {
            top[i] = sorted[i];
        }
        i = i + 1;
    }
    top
}


/// No class appears in two groups.
pub open spec fn groups_distinct(gs: Seq<ClassGroup>) -> bool {
    forall|i: int, j: int| 0 <= i < j < gs.len() ==> #[trigger] gs[i].class_ptr != #[trigger] gs[j].class_ptr
}

/// Some group is for class `c`.
pub open spec fn has_group(gs: Seq<ClassGroup>, c: usize) -> bool {
    exists|i: int| 0 <= i < gs.len() && #[trigger] gs[i].class_ptr == c
}

/// Group `i` is the first group for class `c`.
pub open spec fn is_first_group(gs: Seq<ClassGroup>, c: usize, i: int) -> bool {
    0 <= i < gs.len() && gs[i].class_ptr == c && forall|j: int| 0 <= j < i ==> #[trigger] gs[j].class_ptr != c
}

/// The position of the first group for class `c` (meaningful when there is
/// one).
pub open spec fn group_index(gs: Seq<ClassGroup>, c: usize) -> int {
    choose|i: int| #[trigger] is_first_group(gs, c, i)
}

/// When there is a group for `c`, `group_index` is the first one.
proof fn lemma_group_index(gs: Seq<ClassGroup>, c: usize)
    requires
        has_group(gs, c),
    ensures
        is_first_group(gs, c, group_index(gs, c)),
{
    let k = choose|i: int| 0 <= i < gs.len() && #[trigger] gs[i].class_ptr == c;
    lemma_first_group_exists(gs, c, k);
}

proof fn lemma_first_group_exists(gs: Seq<ClassGroup>, c: usize, k: int)
    requires
        0 <= k < gs.len(),
        gs[k].class_ptr == c,
    ensures
        exists|i: int| #[trigger] is_first_group(gs, c, i),
    decreases k,
{
    if !is_first_group(gs, c, k) {
        let j = choose|j: int| 0 <= j < k && #[trigger] gs[j].class_ptr == c;
        lemma_first_group_exists(gs, c, j);
    }
}

/// The groups after one more actor of class `c` is seen: the count of its
/// (first) group goes up by one, or a group with count one is appended for
/// it.
pub open spec fn record_spec(gs: Seq<ClassGroup>, c: usize) -> Seq<ClassGroup> {
    if has_group(gs, c) {
        let i = group_index(gs, c);
        gs.update(i, ClassGroup { class_ptr: c, count: (gs[i].count + 1) as i32 })
    } else {
        gs.push(ClassGroup { class_ptr: c, count: 1 })
    }
}

/// Counts one more actor of class `class_ptr` (see `record_spec`).
pub fn record_class(groups: &mut Vec<ClassGroup>, class_ptr: usize)
    requires
        has_group(old(groups)@, class_ptr) ==> old(groups)@[group_index(old(groups)@, class_ptr)].count
            < i32::MAX,
    ensures
        final(groups)@ == record_spec(old(groups)@, class_ptr),
        groups_distinct(old(groups)@) ==> groups_distinct(final(groups)@),
{
    let mut i: usize = 0;
    while i < groups.len()
        invariant
            groups@ == old(groups)@,
            has_group(old(groups)@, class_ptr) ==> old(groups)@[group_index(old(groups)@, class_ptr)].count
                < i32::MAX,
            0 <= i <= groups@.len(),
            forall|t: int| 0 <= t < i ==> #[trigger] groups@[t].class_ptr != class_ptr,
        decreases groups@.len() - i,
    {
        if groups[i].class_ptr == class_ptr {
            let g = groups[i];
            proof {
                assert(groups@[i as int].class_ptr == class_ptr);
                lemma_group_index(groups@, class_ptr);
                let k = group_index(groups@, class_ptr);
                if k < i as int {
                    assert(groups@[k].class_ptr != class_ptr);
                } else if k > i as int {
                    assert(groups@[i as int].class_ptr != class_ptr);
                }
            }
            groups.set(i, ClassGroup { class_ptr, count: g.count + 1 });
            return;
        }
        i = i + 1;
    }
    groups.push(ClassGroup { class_ptr, count: 1 });
}

/// The groups after seeing actors of the classes `cs`, in order, starting
/// from no groups.
pub open spec fn record_all(cs: Seq<usize>) -> Seq<ClassGroup>
    decreases cs.len(),
{
    if cs.len() == 0 {
        seq![]
    } else {
        record_spec(record_all(cs.drop_last()), cs.last())
    }
}

/// How many actors of class `c` the groups count.
pub open spec fn count_of(gs: Seq<ClassGroup>, c: usize) -> int {
    if has_group(gs, c) {
        gs[group_index(gs, c)].count as int
    } else {
        0
    }
}

/// How many times `c` occurs in `cs`.
pub open spec fn occurrences(cs: Seq<usize>, c: usize) -> int {
    cs.filter(|x: usize| x == c).len() as int
}

/// Counting actors class by class: after seeing the classes `cs`, the
/// groups are for distinct classes, and each class's count is the number of
/// times it was seen.
pub proof fn lemma_record_all_counts(cs: Seq<usize>)
    requires
        cs.len() < i32::MAX,
    ensures
        groups_distinct(record_all(cs)),
        forall|c: usize| #[trigger] count_of(record_all(cs), c) == occurrences(cs, c),
        forall|i: int| 0 <= i < record_all(cs).len() ==> 1 <= #[trigger] record_all(cs)[i].count <= cs.len(),
    decreases cs.len(),
{
    reveal(Seq::filter);
    if cs.len() > 0 {
        let prev_cs = cs.drop_last();
        let x = cs.last();
        lemma_record_all_counts(prev_cs);
        let gs = record_all(prev_cs);
        let ns = record_all(cs);
        assert(ns == record_spec(gs, x));
        if has_group(gs, x) {
            lemma_group_index(gs, x);
            let k = group_index(gs, x);
            assert forall|i: int, j: int| 0 <= i < j < ns.len() implies #[trigger] ns[i].class_ptr
                != #[trigger] ns[j].class_ptr by {
                assert(gs[i].class_ptr != gs[j].class_ptr);
            }
            assert forall|c: usize| #[trigger] count_of(ns, c) == occurrences(cs, c) by {
                assert(occurrences(cs, c) == occurrences(prev_cs, c) + if c == x { 1int } else { 0int });
                assert(count_of(gs, c) == occurrences(prev_cs, c));
                if has_group(gs, c) {
                    lemma_group_index(gs, c);
                    let kc = group_index(gs, c);
                    lemma_distinct_index(ns, c, kc);
                } else {
                    if has_group(ns, c) {
                        lemma_group_index(ns, c);
                        let k2 = group_index(ns, c);
                        assert(gs[k2].class_ptr == c || k2 == k);
                    }
                }
            }
        } else {
            assert forall|i: int, j: int| 0 <= i < j < ns.len() implies #[trigger] ns[i].class_ptr
                != #[trigger] ns[j].class_ptr by {
                if j == gs.len() {
                    assert(gs[i].class_ptr != x);
                } else {
                    assert(gs[i].class_ptr != gs[j].class_ptr);
                }
            }
            assert forall|c: usize| #[trigger] count_of(ns, c) == occurrences(cs, c) by {
                assert(occurrences(cs, c) == occurrences(prev_cs, c) + if c == x { 1int } else { 0int });
                assert(count_of(gs, c) == occurrences(prev_cs, c));
                if c == x {
                    lemma_distinct_index(ns, x, gs.len() as int);
                } else if has_group(gs, c) {
                    lemma_group_index(gs, c);
                    let kc = group_index(gs, c);
                    lemma_distinct_index(ns, c, kc);
                } else if has_group(ns, c) {
                    lemma_group_index(ns, c);
                    let k2 = group_index(ns, c);
                    assert(gs[k2].class_ptr == c);
                }
            }
        }
    }
}

/// In distinct groups, the group at `i` is the one for its class.
proof fn lemma_distinct_index(gs: Seq<ClassGroup>, c: usize, i: int)
    requires
        groups_distinct(gs),
        0 <= i < gs.len(),
        gs[i].class_ptr == c,
    ensures
        has_group(gs, c),
        group_index(gs, c) == i,
{
    lemma_group_index(gs, c);
    let k = group_index(gs, c);
    if k < i {
        assert(gs[k].class_ptr != gs[i].class_ptr);
    } else if k > i {
        assert(gs[i].class_ptr != gs[k].class_ptr);
    }
}


/// Slot `i` is the first empty (zero) slot of the selection.
pub open spec fn is_first_empty_slot(sel: Seq<usize>, i: int) -> bool {
    0 <= i < sel.len() && sel[i] == 0 && forall|j: int| 0 <= j < i ==> #[trigger] sel[j] != 0
}

/// The selection after toggling class `c`: a null class changes nothing; a
/// selected class is cleared from every slot that holds it; an unselected
/// class goes into the first empty slot, and when there is none nothing
/// changes.
pub open spec fn toggle_spec(sel: Seq<usize>, c: usize) -> Seq<usize> {
    if c == 0 {
        sel
    } else if sel.contains(c) {
        sel.map_values(|x: usize| if x == c { 0 } else { x })
    } else if exists|i: int| #[trigger] is_first_empty_slot(sel, i) {
        sel.update(choose|i: int| #[trigger] is_first_empty_slot(sel, i), c)
    } else {
        sel
    }
}

/// Whether class `c` is among the selected classes.
pub fn is_class_selected(selected: &[usize; 8], class_ptr: usize) -> (r: bool)
    ensures
        r == selected@.contains(class_ptr),
{
    let mut i: usize = 0;
    while i < 8
        invariant
            0 <= i <= 8,
            forall|j: int| 0 <= j < i ==> selected@[j] != class_ptr,
        decreases 8 - i,
    {
        if selected[i] == class_ptr {
            assert(selected@[i as int] == class_ptr);
            return true;
        }
        i = i + 1;
    }
    false
}

/// Toggles class `class_ptr` in the selection (see `toggle_spec`).
pub fn toggle_selected_class(selected: &mut [usize; 8], class_ptr: usize)
    ensures
        final(selected)@ == toggle_spec(old(selected)@, class_ptr),
{
    if class_ptr == 0 {
        return;
    }
    if is_class_selected(selected, class_ptr) {
        let mut i: usize = 0;
        while i < 8
            invariant
                0 <= i <= 8,
                selected@.len() == 8,
                forall|j: int| 0 <= j < i ==> selected@[j] == (if old(selected)@[j] == class_ptr { 0 } else { old(selected)@[j] }),
                forall|j: int| i <= j < 8 ==> selected@[j] == old(selected)@[j],
            decreases 8 - i,
        {
            if selected[i] == class_ptr {
                selected[i] = 0;
            }
            i = i + 1;
        }
        assert(selected@ =~= old(selected)@.map_values(|x: usize| if x == class_ptr { 0 } else { x }));
    } else {
        let mut i: usize = 0;
        while i < 8
            invariant
                0 <= i <= 8,
                class_ptr != 0,
                !old(selected)@.contains(class_ptr),
                selected@ == old(selected)@,
                forall|j: int| 0 <= j < i ==> selected@[j] != 0,
            decreases 8 - i,
        {
            if selected[i] == 0 {
                proof {
                    assert(is_first_empty_slot(old(selected)@, i as int));
                    let k = choose|k: int| #[trigger] is_first_empty_slot(old(selected)@, k);
                    if k < i as int {
                        assert(old(selected)@[k] != 0);
                    } else if k > i as int {
                        assert(old(selected)@[i as int] != 0);
                    }
                }
                selected[i] = class_ptr;
                assert(selected@ == old(selected)@.update(i as int, class_ptr));
                return;
            }
            i = i + 1;
        }
        assert forall|k: int| !#[trigger] is_first_empty_slot(old(selected)@, k) by {
            if 0 <= k < 8 {
                assert(old(selected)@[k] != 0);
            }
        }
    }
}

/// The nonzero entries of the selection are distinct.
pub open spec fn selection_distinct(sel: Seq<usize>) -> bool {
    forall|i: int, j: int| 0 <= i < j < sel.len() && sel[i] != 0 ==> #[trigger] sel[i] != #[trigger] sel[j]
}

/// Toggling keeps the selection free of duplicates; it selects an
/// unselected class when there is room and unselects a selected one; and
/// toggling twice brings back the same selected classes, the very same
/// slots when the class was not selected before.
pub proof fn lemma_toggle_laws(sel: Seq<usize>, c: usize)
    requires
        selection_distinct(sel),
        c != 0,
    ensures
        selection_distinct(toggle_spec(sel, c)),
        sel.contains(c) ==> !toggle_spec(sel, c).contains(c),
        !sel.contains(c) && sel.contains(0) ==> toggle_spec(sel, c).contains(c),
        forall|x: usize| x != 0 ==> (#[trigger] toggle_spec(toggle_spec(sel, c), c).contains(x) <==> sel.contains(x)),
        !sel.contains(c) && sel.contains(0) ==> toggle_spec(toggle_spec(sel, c), c) == sel,
{
    let t = toggle_spec(sel, c);
    if sel.contains(c) {
        let m = sel.map_values(|x: usize| if x == c { 0 } else { x });
        assert(t == m);
        assert forall|i: int, j: int| 0 <= i < j < t.len() && t[i] != 0 implies #[trigger] t[i] != #[trigger] t[j] by {
            assert(sel[i] != 0);
        }
        if t.contains(c) {
            let k = choose|k: int| 0 <= k < t.len() && t[k] == c;
        }
        // The second toggle puts `c` into the first empty slot.
        let j0 = choose|j: int| 0 <= j < sel.len() && sel[j] == c;
        assert(t[j0] == 0);
        assert(is_first_empty_slot(t, j0) || exists|i: int| #[trigger] is_first_empty_slot(t, i)) by {
            if !is_first_empty_slot(t, j0) {
                lemma_first_empty_exists(t, j0);
            }
        }
        let k = choose|i: int| #[trigger] is_first_empty_slot(t, i);
        assert(!t.contains(c)) by {
            if t.contains(c) {
                let q = choose|q: int| 0 <= q < t.len() && t[q] == c;
            }
        }
        let tt = toggle_spec(t, c);
        assert(tt == t.update(k, c));
        assert forall|x: usize| x != 0 implies (#[trigger] tt.contains(x) <==> sel.contains(x)) by {
            if x == c {
                assert(tt[k] == c);
            } else {
                if sel.contains(x) {
                    let q = choose|q: int| 0 <= q < sel.len() && sel[q] == x;
                    assert(t[q] == x);
                    assert(tt[q] == x);
                }
                if tt.contains(x) {
                    let q = choose|q: int| 0 <= q < tt.len() && tt[q] == x;
                    assert(q != k);
                    assert(sel[q] == x);
                }
            }
        }
    } else if exists|i: int| #[trigger] is_first_empty_slot(sel, i) {
        let k = choose|i: int| #[trigger] is_first_empty_slot(sel, i);
        assert(t == sel.update(k, c));
        assert(t[k] == c);
        assert forall|i: int, j: int| 0 <= i < j < t.len() && t[i] != 0 implies #[trigger] t[i] != #[trigger] t[j] by {
            if i == k {
                assert(t[j] == sel[j]);
            } else if j == k {
                assert(t[i] == sel[i]);
            }
        }
        let tt = toggle_spec(t, c);
        assert(t.contains(c));
        assert(tt =~= sel) by {
            assert forall|i: int| 0 <= i < sel.len() implies tt[i] == sel[i] by {
                if i != k {
                    assert(t[i] == sel[i]);
                    if sel[i] == c {
                        assert(sel.contains(c));
                    }
                }
            }
        }
    } else {
        assert(!sel.contains(0)) by {
            if sel.contains(0) {
                let j = choose|j: int| 0 <= j < sel.len() && sel[j] == 0;
                lemma_first_empty_exists(sel, j);
            }
        }
    }
}

/// A sequence with an empty slot has a first one.
proof fn lemma_first_empty_exists(sel: Seq<usize>, j: int)
    requires
        0 <= j < sel.len(),
        sel[j] == 0,
    ensures
        exists|i: int| #[trigger] is_first_empty_slot(sel, i),
    decreases j,
{
    if !is_first_empty_slot(sel, j) {
        let j2 = choose|j2: int| 0 <= j2 < j && sel[j2] == 0;
        lemma_first_empty_exists(sel, j2);
    }
}

/// Whether the manual class filter is on: it is active and some class is
/// selected.
pub fn manual_filter_on(active: bool, selected: &[usize; 8]) -> (r: bool)
    ensures
        r == (active && exists|i: int| 0 <= i < 8 && #[trigger] selected@[i] != 0),
{
    if !active {
        return false;
    }
    let mut i: usize = 0;
    while i < 8
        invariant
            active,
            0 <= i <= 8,
            forall|j: int| 0 <= j < i ==> selected@[j] == 0,
        decreases 8 - i,
    {
        if selected[i] != 0 {
            assert(selected@[i as int] != 0);
            return true;
        }
        i = i + 1;
    }
    false
}

/// A group is listed: it has a class and its count lies in `[min, max]`.
pub open spec fn group_listed(g: ClassGroup, min: i32, max: i32) -> bool {
    g.class_ptr != 0 && min <= g.count && g.count <= max
}

/// The predicate `group_listed` for the range `[min, max]`.
pub open spec fn listed(min: i32, max: i32) -> spec_fn(ClassGroup) -> bool {
    |g: ClassGroup| group_listed(g, min, max)
}

/// How many groups are listed (see `group_listed`).
pub fn count_groups_in_range(groups: &[ClassGroup; 64], min: i32, max: i32) -> (n: i32)
    ensures
        n == groups@.filter(listed(min, max)).len(),
{
    let ghost pred = listed(min, max);
    let mut n: i32 = 0;
    let mut i: usize = 0;
    assert(groups@.take(0) =~= Seq::<ClassGroup>::empty());
    while i < CLASS_GROUP_COUNT
        invariant
            0 <= i <= CLASS_GROUP_COUNT,
            groups@.len() == CLASS_GROUP_COUNT,
            pred == listed(min, max),
            n == groups@.take(i as int).filter(pred).len(),
            n <= i,
        decreases CLASS_GROUP_COUNT - i,
    {
        let g = groups[i];
        assert(groups@.take(i + 1) =~= groups@.take(i as int).push(g));
        proof {
            groups@.take(i as int).lemma_filter_push(g, pred);
        }
        assert(pred(g) == (g.class_ptr != 0 && g.count >= min && g.count <= max));
        if g.class_ptr != 0 && g.count >= min && g.count <= max {
            n = n + 1;
        }
        i = i + 1;
    }
    assert(groups@.take(CLASS_GROUP_COUNT as int) =~= groups@);
    n
}


/// Whether class `c` is an enemy by its name: its name resolves and
/// classifies as an enemy of either kind.
pub open spec fn enemy_by_name<N: Fn(usize, usize) -> Option<String>>(
    resolve: N,
    module_base: usize,
    c: usize,
) -> bool {
    c != 0 && match name_at(resolve, module_base, c.wrapping_add(UOBJECT_NAME_OFFSET)) {
        Some(n) => enemy_kind_of(vstd::utf8::encode_utf8(n@)) != EnemyKind::NotEnemy,
        None => false,
    }
}

/// The enemy verdict for class `c`: the cached one, else the one its name
/// gives.
pub open spec fn enemy_verdict<N: Fn(usize, usize) -> Option<String>>(
    cache: Map<usize, bool>,
    resolve: N,
    module_base: usize,
    c: usize,
) -> bool {
    if cache.contains_key(c) {
        cache[c]
    } else {
        enemy_by_name(resolve, module_base, c)
    }
}

/// A class not yet in the cache is an enemy exactly when its name resolves
/// and names an enemy of either kind, human or mech.
pub proof fn lemma_enemy_verdict_either_kind<N: Fn(usize, usize) -> Option<String>>(
    cache: Map<usize, bool>,
    resolve: N,
    module_base: usize,
    c: usize,
    n: String,
)
    requires
        !cache.contains_key(c),
        c != 0,
        name_at(resolve, module_base, c.wrapping_add(0x18usize)) == Some(n),
    ensures
        enemy_verdict(cache, resolve, module_base, c) == (enemy_kind_of(vstd::utf8::encode_utf8(n@))
            == EnemyKind::Human || enemy_kind_of(vstd::utf8::encode_utf8(n@)) == EnemyKind::Mech),
{
}

/// A class not yet in the cache whose name begins with one of the enemy
/// prefixes, human (`BP_Human_Enemy`, `BP_GLHuman_Gladiator`) or mech
/// (`BP_Harrier`, `BP_RoverBase`, `BP_RoverSpider`, `BP_RoverDriller`), is an
/// enemy.
pub proof fn lemma_enemy_prefixes_are_enemies<N: Fn(usize, usize) -> Option<String>>(
    cache: Map<usize, bool>,
    resolve: N,
    module_base: usize,
    c: usize,
    n: String,
)
    requires
        !cache.contains_key(c),
        c != 0,
        name_at(resolve, module_base, c.wrapping_add(0x18usize)) == Some(n),
        is_prefix_of(vstd::utf8::encode_utf8("BP_Human_Enemy"@), vstd::utf8::encode_utf8(n@))
            || is_prefix_of(vstd::utf8::encode_utf8("BP_GLHuman_Gladiator"@), vstd::utf8::encode_utf8(n@))
            || is_prefix_of(vstd::utf8::encode_utf8("BP_Harrier"@), vstd::utf8::encode_utf8(n@))
            || is_prefix_of(vstd::utf8::encode_utf8("BP_RoverBase"@), vstd::utf8::encode_utf8(n@))
            || is_prefix_of(vstd::utf8::encode_utf8("BP_RoverSpider"@), vstd::utf8::encode_utf8(n@))
            || is_prefix_of(vstd::utf8::encode_utf8("BP_RoverDriller"@), vstd::utf8::encode_utf8(n@)),
    ensures
        enemy_verdict(cache, resolve, module_base, c),
{
}

/// A class that no name resolves for, and the null class, are never
/// enemies.
pub proof fn lemma_unnamed_class_not_enemy<N: Fn(usize, usize) -> Option<String>>(
    cache: Map<usize, bool>,
    resolve: N,
    module_base: usize,
    c: usize,
)
    requires
        !cache.contains_key(c),
        c == 0 || name_at(resolve, module_base, c.wrapping_add(0x18usize)) is None,
    ensures
        !enemy_verdict(cache, resolve, module_base, c),
{
}

/// Whether class `class_ptr` is an enemy, by its name, remembering the
/// verdict per class.
pub fn enemy_class_cached<N: Fn(usize, usize) -> Option<String>>(
    cache: &mut std::collections::HashMap<usize, bool>,
    module_base: usize,
    class_ptr: usize,
    resolve: &N,
) -> (r: bool)
    requires
        is_name_resolver(*resolve),
    ensures
        r == enemy_verdict(old(cache)@, *resolve, module_base, class_ptr),
        final(cache)@ == old(cache)@.insert(class_ptr, r),
        !old(cache)@.contains_key(class_ptr) && class_ptr != 0 ==> name_answered(
            *resolve,
            module_base,
            class_ptr.wrapping_add(UOBJECT_NAME_OFFSET),
        ),
{
    match cache.get(&class_ptr) {
        Some(v) => {
            let v = *v;
            assert(old(cache)@.insert(class_ptr, v) =~= old(cache)@);
            return v;
        },
        None => {},
    }
    let v = match get_class_name(module_base, class_ptr, resolve) {
        Some(n) => is_enemy_class_name(n.as_str()),
        None => false,
    };
    cache.insert(class_ptr, v);
    v
}

/// Whether an actor of class `class_ptr` passes the overlay's class filters.
/// With neither filter on, every actor passes; otherwise it passes when the
/// enemy filter is on and its class is an enemy, or the manual filter is on
/// and its class is selected. The enemy verdict is looked up (and cached)
/// only when the enemy filter is on and the class is not null.
pub fn passes_class_filter<N: Fn(usize, usize) -> Option<String>>(
    auto_filter_on: bool,
    manual_filter_on: bool,
    selected: &[usize; 8],
    class_ptr: usize,
    enemy_cache: &mut std::collections::HashMap<usize, bool>,
    module_base: usize,
    resolve: &N,
) -> (r: bool)
    requires
        is_name_resolver(*resolve),
    ensures
        r == ((!auto_filter_on && !manual_filter_on) || (auto_filter_on && class_ptr != 0 && enemy_verdict(
            old(enemy_cache)@,
            *resolve,
            module_base,
            class_ptr,
        )) || (manual_filter_on && selected@.contains(class_ptr))),
        final(enemy_cache)@ == (if auto_filter_on && class_ptr != 0 {
            old(enemy_cache)@.insert(class_ptr, enemy_verdict(old(enemy_cache)@, *resolve, module_base, class_ptr))
        } else {
            old(enemy_cache)@
        }),
        auto_filter_on && class_ptr != 0 && !old(enemy_cache)@.contains_key(class_ptr) ==> name_answered(
            *resolve,
            module_base,
            class_ptr.wrapping_add(UOBJECT_NAME_OFFSET),
        ),
{
    if !auto_filter_on && !manual_filter_on {
        return true;
    }
    let auto_match = auto_filter_on && class_ptr != 0 && enemy_class_cached(enemy_cache, module_base, class_ptr, resolve);
    let manual_match = manual_filter_on && is_class_selected(selected, class_ptr);
    auto_match || manual_match
}

/// A class name passes the class-list search when its lowercase form
/// contains the lowercase form of the search (so an empty search passes
/// every name).
pub open spec fn class_search_spec(name: Seq<char>, search: Seq<char>) -> bool {
    is_infix_of(vstd::utf8::encode_utf8(lowercase(search)), vstd::utf8::encode_utf8(lowercase(name)))
}

/// Whether a class name passes the class-list search (see
/// `class_search_spec`); the name is lowercased only for a nonempty search.
pub fn passes_class_search(name: &str, search: &str) -> (r: bool)
    ensures
        r == class_search_spec(name@, search@),
{
    let search_lc = str_to_lowercase(search);
    let search_bytes = search_lc.as_str().as_bytes();
    if search_bytes.len() == 0 {
        proof {
            assert(search_bytes@ == vstd::utf8::encode_utf8(lowercase(search@)));
            let n = vstd::utf8::encode_utf8(lowercase(name@));
            let part = vstd::utf8::encode_utf8(lowercase(search@));
            assert(n.subrange(0int, 0int + part.len()) =~= part);
            assert(is_infix_of(part, n));
        }
        return true;
    }
    let name_lc = str_to_lowercase(name);
    str_contains(name_lc.as_str(), search_lc.as_str())
}

} // verus!
