use vstd::prelude::*;
use vstd::string::StrSliceExecFns;
use crate::errors::TodoError;
use crate::todo_list::{
    TodoItem, TodoList, ItemView, ListView, sub_or_empty, lemma_remove_insert_is_update,
    lemma_models_update, lemma_wf_after_update_item,
};

verus! {

/// A path is a colon-separated sequence of zero-based positional indices: the
/// walk starts at the root list, each non-final segment descends into the
/// addressed item's sub-list, and the final segment names the target item.
pub open spec fn is_digit(c: char) -> bool {
    48 <= c as u32 <= 57
}

pub open spec fn digit_val(c: char) -> int {
    c as u32 - 48
}

pub open spec fn all_digits(ds: Seq<char>) -> bool {
    forall|i: int| 0 <= i < ds.len() ==> is_digit(#[trigger] ds[i])
}

/// The numeric value of a digit string, most significant digit first.
pub open spec fn digits_value(ds: Seq<char>) -> int
    decreases ds.len(),
{
    if ds.len() == 0 {
        0
    } else {
        digits_value(ds.drop_last()) * 10 + digit_val(ds.last())
    }
}

/// The position of the first colon at or after `pos`, or the length of the
/// text when there is none.
pub open spec fn first_colon_from(s: Seq<char>, pos: int) -> int
    decreases s.len() - pos,
{
    if pos < 0 || pos >= s.len() {
        s.len() as int
    } else if s[pos] == ':' {
        pos
    } else {
        first_colon_from(s, pos + 1)
    }
}

/// The path grammar from position `pos` on: a non-empty digit segment whose
/// value fits `usize`, then either the end of the text or a colon followed by
/// the same grammar again. `None` when the text from `pos` breaks the
/// grammar. The bounds guard on `e` is never taken; it keeps the recursion
/// measure evident.
pub open spec fn spec_parse_from(s: Seq<char>, pos: int) -> Option<Seq<usize>>
    decreases s.len() - pos,
{
    if pos < 0 || pos >= s.len() {
        None
    } else {
        let e = first_colon_from(s, pos);
        if e < pos || e > s.len() {
            None
        } else {
            let part = s.subrange(pos, e);
            if part.len() == 0 || !all_digits(part) || digits_value(part) > usize::MAX {
                None
            } else if e == s.len() {
                Some(seq![digits_value(part) as usize])
            } else {
                match spec_parse_from(s, e + 1) {
                    Some(rest) => Some(rest.insert(0, digits_value(part) as usize)),
                    None => None,
                }
            }
        }
    }
}

/// What parsing a whole path text yields: the segment values in order, or
/// `None` when the text is not a colon-separated sequence of indices.
pub open spec fn spec_parse_path(s: Seq<char>) -> Option<Seq<usize>> {
    spec_parse_from(s, 0)
}

/// `first_colon_from` names the first colon: everything before it, from
/// `pos`, is not a colon, and it is a colon unless it is the end.
proof fn lemma_first_colon_from(s: Seq<char>, pos: int)
    requires
        0 <= pos <= s.len(),
    ensures
        pos <= first_colon_from(s, pos) <= s.len(),
        first_colon_from(s, pos) < s.len() ==> s[first_colon_from(s, pos)] == ':',
        forall|k: int| pos <= k < first_colon_from(s, pos) ==> s[k] != ':',
    decreases s.len() - pos,
{
    if pos < s.len() && s[pos] != ':' {
        lemma_first_colon_from(s, pos + 1);
    }
}

/// The value of a digit string is non-negative.
pub(crate) proof fn lemma_digits_value_nonneg(ds: Seq<char>)
    requires
        all_digits(ds),
    ensures
        digits_value(ds) >= 0,
    decreases ds.len(),
{
    if ds.len() > 0 {
        assert(all_digits(ds.drop_last())) by {
            assert(forall|i: int|
                0 <= i < ds.len() - 1 ==> ds.drop_last()[i] == #[trigger] ds[i]);
        }
        lemma_digits_value_nonneg(ds.drop_last());
    }
}

/// Extending a digit string never shrinks its value.
pub(crate) proof fn lemma_digits_value_mono(ds: Seq<char>, k: int)
    requires
        all_digits(ds),
        0 <= k <= ds.len(),
    ensures
        digits_value(ds) >= digits_value(ds.subrange(0, k)),
    decreases ds.len() - k,
{
    if k == ds.len() {
        assert(ds.subrange(0, k) =~= ds);
    } else {
        lemma_digits_value_mono(ds, k + 1);
        let p = ds.subrange(0, k + 1);
        assert(p.drop_last() =~= ds.subrange(0, k));
        assert(all_digits(p)) by {
            assert(forall|i: int| 0 <= i < p.len() ==> p[i] == #[trigger] ds[i]);
        }
        lemma_digits_value_nonneg(p.drop_last());
        assert(digits_value(p) == digits_value(ds.subrange(0, k)) * 10 + digit_val(p.last()));
        assert(digit_val(p.last()) >= 0);
        assert(digits_value(p) >= digits_value(ds.subrange(0, k)));
    }
}

/// Parse one segment starting at `pos` and everything after it.
fn parse_from(path: &str, pos: usize) -> (r: Result<Vec<usize>, TodoError>)
    requires
        pos <= path@.len(),
    ensures
        match spec_parse_from(path@, pos as int) {
            Some(segs) => r matches Ok(v) && v@ == segs && segs.len() > 0,
            None => r == Err::<Vec<usize>, TodoError>(TodoError::InvalidPathFormat),
        },
    decreases path@.len() - pos,
{
    let n = path.unicode_len();
    if pos >= n {
        return Err(TodoError::InvalidPathFormat);
    }
    proof {
        lemma_first_colon_from(path@, pos as int);
    }
    let ghost ge = first_colon_from(path@, pos as int);
    let mut e = pos;
    while e < n && path.get_char(e) != ':'
        invariant
            pos <= e <= n,
            n == path@.len(),
            forall|k: int| pos <= k < e ==> path@[k] != ':',
            ge == first_colon_from(path@, pos as int),
            e <= ge,
        decreases n - e,
    {
        proof {
            lemma_first_colon_from(path@, pos as int);
            if e + 1 > ge {
                assert(path@[ge] != ':');
            }
        }
        e = e + 1;
    }
    proof {
        lemma_first_colon_from(path@, pos as int);
        if e < ge {
            assert(path@[e as int] == ':');
        }
        assert(e == ge);
    }
    let ghost part = path@.subrange(pos as int, e as int);
    if e == pos {
        return Err(TodoError::InvalidPathFormat);
    }
    let mut val: usize = 0;
    let mut k = pos;
    while k < e
        invariant
            pos <= k <= e <= n,
            n == path@.len(),
            part == path@.subrange(pos as int, e as int),
            e as int == first_colon_from(path@, pos as int),
            all_digits(path@.subrange(pos as int, k as int)),
            val == digits_value(path@.subrange(pos as int, k as int)),
        decreases e - k,
    {
        let c = path.get_char(k);
        let cu = c as u32;
        let ghost prefix = path@.subrange(pos as int, k as int);
        let ghost prefix2 = path@.subrange(pos as int, k as int + 1);
        proof {
            assert(prefix2.drop_last() =~= prefix);
            assert(prefix2.last() == path@[k as int]);
        }
        if cu < 48 || cu > 57 {
            proof {
                assert(!is_digit(part[k as int - pos]));
                assert(!all_digits(part));
            }
            return Err(TodoError::InvalidPathFormat);
        }
        let d = (cu - 48) as usize;
        if val > usize::MAX / 10 || (val == usize::MAX / 10 && d > usize::MAX % 10) {
            proof {
                assert(digits_value(prefix2) == val * 10 + d);
                assert(digits_value(prefix2) > usize::MAX);
                if all_digits(part) {
                    lemma_digits_value_mono(part, k as int + 1 - pos);
                    assert(part.subrange(0, k as int + 1 - pos) =~= prefix2);
                    assert(digits_value(part) > usize::MAX);
                }
            }
            return Err(TodoError::InvalidPathFormat);
        }
        val = val * 10 + d;
        proof {
            assert(all_digits(prefix2)) by {
                assert(forall|i: int|
                    0 <= i < prefix.len() ==> prefix2[i] == #[trigger] prefix[i]);
            }
        }
        k = k + 1;
    }
    proof {
        assert(part =~= path@.subrange(pos as int, e as int));
        assert(all_digits(part));
        assert(val == digits_value(part));
        assert(part.len() > 0);
    }
    if e == n {
        let mut v: Vec<usize> = Vec::new();
        v.push(val);
        proof {
            assert(v@ =~= seq![val]);
        }
        Ok(v)
    } else {
        match parse_from(path, e + 1) {
            Err(err) => Err(err),
            Ok(mut rest) => {
                rest.insert(0, val);
                Ok(rest)
            },
        }
    }
}

/// Split a path text into its index segments. An empty path is
/// `PathNotFound`; a path that breaks the grammar (an empty segment, a
/// non-digit, a value over `usize`) is `InvalidPathFormat`.
pub fn parse_path(path: &str) -> (r: Result<Vec<usize>, TodoError>)
    ensures
        path@.len() == 0 ==> r == Err::<Vec<usize>, TodoError>(TodoError::PathNotFound),
        path@.len() > 0 ==> match spec_parse_path(path@) {
            Some(segs) => r matches Ok(v) && v@ == segs && segs.len() > 0,
            None => r == Err::<Vec<usize>, TodoError>(TodoError::InvalidPathFormat),
        },
{
    let n = path.unicode_len();
    if n == 0 {
        Err(TodoError::PathNotFound)
    } else {
        parse_from(path, 0)
    }
}

/// Outcome of a failed walk, at the model level: which index failed, and how.
pub ghost enum WalkErr {
    OutOfBounds { index: usize, depth: usize },
    NoSublist { index: usize },
}

/// What walking the segments from depth `d` yields: the addressed item, or
/// the first failure. A non-final segment must address an item that already
/// owns a sub-list; the final segment only needs to be in bounds. The
/// out-of-range guard on `d` is never reached from the public entry point,
/// which walks a non-empty parsed path from depth zero.
pub open spec fn spec_resolve(lv: ListView, segs: Seq<usize>, d: int) -> Result<ItemView, WalkErr>
    decreases segs.len() - d,
{
    if d < 0 || d >= segs.len() {
        Err(WalkErr::OutOfBounds { index: 0, depth: 0 })
    } else {
        let ix = segs[d];
        if ix >= lv.items.len() {
            Err(WalkErr::OutOfBounds { index: ix, depth: d as usize })
        } else if d == segs.len() - 1 {
            Ok(lv.items[ix as int])
        } else {
            match lv.items[ix as int].sub_list {
                None => Err(WalkErr::NoSublist { index: ix }),
                Some(sub) => spec_resolve(sub, segs, d + 1),
            }
        }
    }
}

/// Walk the parsed segments below `list`, starting at depth `d`.
fn resolve_rec<'a>(list: &'a TodoList, segs: &Vec<usize>, d: usize, path: &str) -> (r: Result<
    &'a TodoItem,
    TodoError,
>)
    requires
        d < segs@.len(),
    ensures
        match spec_resolve(list.model(), segs@, d as int) {
            Ok(iv) => r matches Ok(it) && it.model() == iv,
            Err(WalkErr::OutOfBounds { index, depth }) => r matches Err(e) && e matches
                TodoError::IndexOutOfBounds {
                index: i2,
                depth: d2,
                path: p2,
            } && i2 == index && d2 == depth && p2@ == path@,
            Err(WalkErr::NoSublist { index }) => r matches Err(e) && e matches
                TodoError::NoSublistAtIndex { index: i2, path: p2 } && i2 == index && p2@ == path@,
        },
    decreases segs@.len() - d,
{
    let ix = segs[d];
    if ix >= list.items.len() {
        return Err(TodoError::IndexOutOfBounds { index: ix, depth: d, path: path.to_owned() });
    }
    if d == segs.len() - 1 {
        let it = &list.items[ix];
        Ok(it)
    } else {
        let it = &list.items[ix];
        match &it.sub_list {
            None => Err(TodoError::NoSublistAtIndex { index: ix, path: path.to_owned() }),
            Some(sub) => resolve_rec(sub, segs, d + 1, path),
        }
    }
}

/// A mutation addressed through a path: the path names an item, and the
/// operation acts on that item's own nested list (created lazily by an add;
/// required to exist by the others), by identifier, the same way the
/// root-level operations act on the root list.
pub enum ListOp {
    Add { description: String, deadline: Option<String> },
    Edit { id: usize, description: String, deadline: Option<String> },
    Complete { id: usize },
    Remove { id: usize },
}

/// What a path-addressed mutation handed back.
#[derive(Debug)]
pub enum OpOutcome {
    Added(usize),
    Edited(usize),
    Completed(usize),
    Removed(TodoItem),
}

/// Model of a `ListOp`.
pub ghost enum OpView {
    Add { description: Seq<char>, deadline: Option<Seq<char>> },
    Edit { id: usize, description: Seq<char>, deadline: Option<Seq<char>> },
    Complete { id: usize },
    Remove { id: usize },
}

/// Model of an `OpOutcome`.
pub ghost enum OutView {
    Added(usize),
    Edited(int),
    Completed(int),
    Removed(ItemView),
}

pub open spec fn op_view(op: ListOp) -> OpView {
    match op {
        ListOp::Add { description, deadline } => OpView::Add {
            description: description@,
            deadline: deadline.deep_view(),
        },
        ListOp::Edit { id, description, deadline } => OpView::Edit {
            id,
            description: description@,
            deadline: deadline.deep_view(),
        },
        ListOp::Complete { id } => OpView::Complete { id },
        ListOp::Remove { id } => OpView::Remove { id },
    }
}

pub open spec fn out_matches(o: OpOutcome, ov: OutView) -> bool {
    match (o, ov) {
        (OpOutcome::Added(a), OutView::Added(b)) => a == b,
        (OpOutcome::Edited(a), OutView::Edited(b)) => a == b,
        (OpOutcome::Completed(a), OutView::Completed(b)) => a == b,
        (OpOutcome::Removed(it), OutView::Removed(iv)) => it.model() == iv,
        _ => false,
    }
}

/// What applying an operation to one list does, by identifier at that level:
/// exactly what the root-level operations do. `None` when the identifier (or
/// parent) is absent there.
pub open spec fn spec_apply_local(lv: ListView, opv: OpView) -> Option<(ListView, OutView)> {
    match opv {
        OpView::Add { description, deadline } => {
            let (l2, id) = crate::todo_list::spec_add(lv, description, deadline);
            Some((l2, OutView::Added(id)))
        },
        OpView::Edit { id, description, deadline } => if lv.ids().contains(id) {
            let j = lv.ids().index_of(id);
            Some(
                (
                    ListView {
                        items: lv.items.update(
                            j,
                            ItemView {
                                description,
                                deadline: if deadline is Some {
                                    deadline
                                } else {
                                    lv.items[j].deadline
                                },
                                ..lv.items[j]
                            },
                        ),
                        pool: lv.pool,
                    },
                    OutView::Edited(j),
                ),
            )
        } else {
            None
        },
        OpView::Complete { id } => if lv.ids().contains(id) {
            let j = lv.ids().index_of(id);
            Some(
                (
                    ListView {
                        items: lv.items.update(j, ItemView { completed: true, ..lv.items[j] }),
                        pool: lv.pool,
                    },
                    OutView::Completed(j),
                ),
            )
        } else {
            None
        },
        OpView::Remove { id } => if lv.ids().contains(id) {
            let j = lv.ids().index_of(id);
            Some(
                (
                    ListView {
                        items: lv.items.remove(j),
                        pool: crate::id_pool::spec_release(lv.pool, id)->Some_0,
                    },
                    OutView::Removed(lv.items[j]),
                ),
            )
        } else {
            None
        },
    }
}

/// Failures of a path-addressed mutation, at the model level.
pub ghost enum ApplyErr {
    OutOfBounds { index: usize, depth: usize },
    NoSublist { index: usize },
    LocalFail,
}

/// What a path-addressed mutation does: walk the index segments from depth
/// `d`; at the final segment, apply the operation to that item's nested list
/// (an empty one stands in for a missing one only when adding); rebuild the
/// updated tree on the way out. The out-of-range guard on `d` is never
/// reached from the public entry point, which walks a non-empty parsed path
/// from depth zero.
pub open spec fn spec_apply_in(lv: ListView, segs: Seq<usize>, d: int, opv: OpView) -> Result<
    (ListView, OutView),
    ApplyErr,
>
    decreases segs.len() - d,
{
    if d < 0 || d >= segs.len() {
        Err(ApplyErr::LocalFail)
    } else {
        let ix = segs[d];
        if ix >= lv.items.len() {
            Err(ApplyErr::OutOfBounds { index: ix, depth: d as usize })
        } else {
            let target = lv.items[ix as int];
            if d == segs.len() - 1 {
                let sub = if opv is Add {
                    sub_or_empty(target)
                } else {
                    match target.sub_list {
                        Some(l) => l,
                        None => ListView::empty(),
                    }
                };
                if !(opv is Add) && target.sub_list is None {
                    Err(ApplyErr::NoSublist { index: ix })
                } else {
                    match spec_apply_local(sub, opv) {
                        None => Err(ApplyErr::LocalFail),
                        Some((sub2, out)) => Ok(
                            (
                                ListView {
                                    items: lv.items.update(
                                        ix as int,
                                        ItemView { sub_list: Some(sub2), ..target },
                                    ),
                                    pool: lv.pool,
                                },
                                out,
                            ),
                        ),
                    }
                }
            } else {
                match target.sub_list {
                    None => Err(ApplyErr::NoSublist { index: ix }),
                    Some(sub) => match spec_apply_in(sub, segs, d + 1, opv) {
                        Err(e) => Err(e),
                        Ok((sub2, out)) => Ok(
                            (
                                ListView {
                                    items: lv.items.update(
                                        ix as int,
                                        ItemView { sub_list: Some(sub2), ..target },
                                    ),
                                    pool: lv.pool,
                                },
                                out,
                            ),
                        ),
                    },
                }
            }
        }
    }
}

/// The machine-limit precondition of a path-addressed add: the pool of the
/// list the new item lands in has not exhausted `usize`. Operations other
/// than add, and walks that fail, need nothing.
pub open spec fn can_apply_in(lv: ListView, segs: Seq<usize>, d: int, opv: OpView) -> bool
    decreases segs.len() - d,
{
    if !(opv is Add) || d < 0 || d >= segs.len() {
        true
    } else {
        let ix = segs[d];
        if ix >= lv.items.len() {
            true
        } else {
            let target = lv.items[ix as int];
            if d == segs.len() - 1 {
                sub_or_empty(target).pool.next < usize::MAX
            } else {
                match target.sub_list {
                    None => true,
                    Some(sub) => can_apply_in(sub, segs, d + 1, opv),
                }
            }
        }
    }
}

impl TodoList {
    /// Resolve a path text to the addressed item: parse the colon-separated
    /// indices, then walk them down from this list. Empty text is
    /// `PathNotFound`; text breaking the grammar is `InvalidPathFormat`; a
    /// segment past the end of a level is `IndexOutOfBounds` with that index
    /// and depth; a non-final segment naming a leaf is `NoSublistAtIndex`.
    pub fn resolve<'a>(&'a self, path: &str) -> (r: Result<&'a TodoItem, TodoError>)
        ensures
            path@.len() == 0 ==> (r matches Err(e) && e == TodoError::PathNotFound),
            path@.len() > 0 ==> match spec_parse_path(path@) {
                None => r matches Err(e) && e == TodoError::InvalidPathFormat,
                Some(segs) => match spec_resolve(self.model(), segs, 0) {
                    Ok(iv) => r matches Ok(it) && it.model() == iv,
                    Err(WalkErr::OutOfBounds { index, depth }) => r matches Err(e) && e matches
                        TodoError::IndexOutOfBounds {
                        index: i2,
                        depth: d2,
                        path: p2,
                    } && i2 == index && d2 == depth && p2@ == path@,
                    Err(WalkErr::NoSublist { index }) => r matches Err(e) && e matches
                        TodoError::NoSublistAtIndex { index: i2, path: p2 } && i2 == index && p2@
                        == path@,
                },
            },
    {
        match parse_path(path) {
            Err(e) => Err(e),
            Ok(segs) => resolve_rec(self, &segs, 0, path),
        }
    }
}

/// Walk the segments mutably and apply the operation at the target.
fn apply_rec(list: &mut TodoList, segs: &Vec<usize>, d: usize, path: &str, op: ListOp) -> (r:
    Result<OpOutcome, TodoError>)
    requires
        d < segs@.len(),
        old(list).wf(),
        can_apply_in(old(list).model(), segs@, d as int, op_view(op)),
    ensures
        final(list).wf(),
        match spec_apply_in(old(list).model(), segs@, d as int, op_view(op)) {
            Ok((lv2, out)) => r matches Ok(o) && final(list).model() == lv2 && out_matches(o, out),
            Err(ApplyErr::OutOfBounds { index, depth }) => r matches Err(e) && e matches
                TodoError::IndexOutOfBounds {
                index: i2,
                depth: d2,
                path: p2,
            } && i2 == index && d2 == depth && p2@ == path@ && final(list).model() == old(list).model(),
            Err(ApplyErr::NoSublist { index }) => r matches Err(e) && e matches
                TodoError::NoSublistAtIndex { index: i2, path: p2 } && i2 == index && p2@ == path@
                && final(list).model() == old(list).model(),
            Err(ApplyErr::LocalFail) => r is Err && final(list).model() == old(list).model()
                && (match op_view(op) {
                OpView::Add { .. } => r == Err::<OpOutcome, TodoError>(TodoError::ParentNotFound),
                OpView::Edit { id, .. } => r == Err::<OpOutcome, TodoError>(
                    TodoError::ItemNotFound { id },
                ),
                OpView::Complete { id } => r == Err::<OpOutcome, TodoError>(
                    TodoError::ItemNotFound { id },
                ),
                OpView::Remove { id } => r == Err::<OpOutcome, TodoError>(
                    TodoError::ItemNotFound { id },
                ),
            }),
        },
    decreases segs@.len() - d,
{
    let ghost lv = list.model();
    let ghost opv = op_view(op);
    let ix = segs[d];
    if ix >= list.items.len() {
        return Err(TodoError::IndexOutOfBounds { index: ix, depth: d, path: path.to_owned() });
    }
    let mut item = list.items.remove(ix);
    let ghost iv = item.model();
    proof {
        assert(iv == lv.items[ix as int]);
    }
    if d == segs.len() - 1 {
        let is_add = match &op {
            ListOp::Add { .. } => true,
            _ => false,
        };
        if !is_add && item.sub_list.is_none() {
            let ghost ivk = item.model();
            self_restore(list, ix, item);
            proof {
                lemma_remove_insert_is_update(old(list).items@, ix as int, item);
                lemma_models_update(old(list).items@, ix as int, item);
                assert(ivk =~= iv);
                assert(final(list).model().items =~= lv.items.update(ix as int, ivk));
                assert(lv.items.update(ix as int, ivk) =~= lv.items);
                assert(final(list).model() =~= lv);
            }
            return Err(TodoError::NoSublistAtIndex { index: ix, path: path.to_owned() });
        }
        let mut sub = match item.sub_list {
            Some(l) => l,
            None => TodoList::new(),
        };
        proof {
            assert(sub.model() == sub_or_empty(iv));
            assert(iv.wf());
            assert(sub.wf());
        }
        let ghost subpre = sub.model();
        let (res, failed): (Result<OpOutcome, TodoError>, bool) = match op {
            ListOp::Add { description, deadline } => {
                let ghost gd = description@;
                let ghost gdl = deadline.deep_view();
                let id = sub.push_new(description, deadline);
                proof {
                    assert(Some((sub.model(), OutView::Added(id))) == spec_apply_local(
                        subpre,
                        opv,
                    ));
                }
                (Ok(OpOutcome::Added(id)), false)
            },
            ListOp::Edit { id, description, deadline } => {
                let ghost gd = description@;
                let ghost gdl = deadline.deep_view();
                match sub.edit_item(id, description, deadline) {
                    Ok(j) => {
                        proof {
                            assert(Some((sub.model(), OutView::Edited(j as int)))
                                == spec_apply_local(subpre, opv));
                        }
                        (Ok(OpOutcome::Edited(j)), false)
                    },
                    Err(e) => (Err(e), true),
                }
            },
            ListOp::Complete { id } => match sub.complete_item(id) {
                Ok(j) => {
                    proof {
                        assert(Some((sub.model(), OutView::Completed(j as int)))
                            == spec_apply_local(subpre, opv));
                    }
                    (Ok(OpOutcome::Completed(j)), false)
                },
                Err(e) => (Err(e), true),
            },
            ListOp::Remove { id } => match sub.remove_item(id) {
                Ok(it) => {
                    proof {
                        assert(spec_apply_local(subpre, opv) matches Some((s2, out)) && s2
                            == sub.model() && out_matches(OpOutcome::Removed(it), out));
                    }
                    (Ok(OpOutcome::Removed(it)), false)
                },
                Err(e) => (Err(e), true),
            },
        };
        let ghost sub2 = sub.model();
        item.sub_list = Some(sub);
        let ghost iv2 = item.model();
        self_restore(list, ix, item);
        proof {
            assert(iv2 == ItemView { sub_list: Some(sub2), ..iv });
            lemma_remove_insert_is_update(old(list).items@, ix as int, item);
            lemma_models_update(old(list).items@, ix as int, item);
            assert(final(list).model().items =~= lv.items.update(ix as int, iv2));
            assert(final(list).model() =~= (ListView {
                items: lv.items.update(ix as int, iv2),
                pool: lv.pool,
            }));
            if failed {
                assert(sub2 == subpre);
                assert(iv2 =~= iv);
                assert(lv.items.update(ix as int, iv2) =~= lv.items);
                assert(final(list).model() =~= lv);
                lemma_wf_after_update_item(lv, ix as int, iv2);
            } else {
                lemma_wf_after_update_item(lv, ix as int, iv2);
            }
        }
        res
    } else {
        let mut sub = match item.sub_list {
            Some(l) => l,
            None => {
                let ghost ivk = item.model();
                self_restore(list, ix, item);
                proof {
                    lemma_remove_insert_is_update(old(list).items@, ix as int, item);
                    lemma_models_update(old(list).items@, ix as int, item);
                    assert(ivk =~= iv);
                    assert(final(list).model().items =~= lv.items.update(ix as int, ivk));
                    assert(lv.items.update(ix as int, ivk) =~= lv.items);
                    assert(final(list).model() =~= lv);
                }
                return Err(TodoError::NoSublistAtIndex { index: ix, path: path.to_owned() });
            },
        };
        proof {
            assert(iv.sub_list == Some(sub.model()));
            assert(iv.wf());
            assert(sub.wf());
        }
        let ghost subpre = sub.model();
        let res = apply_rec(&mut sub, segs, d + 1, path, op);
        let ghost sub2 = sub.model();
        item.sub_list = Some(sub);
        let ghost iv2 = item.model();
        self_restore(list, ix, item);
        proof {
            assert(iv2 == ItemView { sub_list: Some(sub2), ..iv });
            lemma_remove_insert_is_update(old(list).items@, ix as int, item);
            lemma_models_update(old(list).items@, ix as int, item);
            assert(final(list).model().items =~= lv.items.update(ix as int, iv2));
            assert(final(list).model() =~= (ListView {
                items: lv.items.update(ix as int, iv2),
                pool: lv.pool,
            }));
            if res is Err {
                assert(sub2 == subpre);
                assert(iv2 =~= iv);
                assert(lv.items.update(ix as int, iv2) =~= lv.items);
                assert(final(list).model() =~= lv);
            } else {
                lemma_wf_after_update_item(lv, ix as int, iv2);
            }
        }
        res
    }
}

/// Put an item back at its position.
fn self_restore(list: &mut TodoList, ix: usize, item: TodoItem)
    requires
        ix <= old(list).items@.len(),
    ensures
        final(list).items@ == old(list).items@.insert(ix as int, item),
        final(list).id_pool == old(list).id_pool,
{
    list.items.insert(ix, item);
}

impl TodoList {
    /// Apply a mutation to the nested list of the item a path addresses: the
    /// engine's path-addressed form of add, edit, complete and remove. The
    /// path is resolved by indices; the operation then works by identifier
    /// inside the addressed item's own list, exactly as the root-level
    /// operations do on the root. An add creates the nested list lazily; the
    /// other operations require it to exist.
    pub fn apply_at(&mut self, path: &str, op: ListOp) -> (r: Result<OpOutcome, TodoError>)
        requires
            old(self).wf(),
            (spec_parse_path(path@) matches Some(segs) ==> can_apply_in(
                old(self).model(),
                segs,
                0,
                op_view(op),
            )),
        ensures
            final(self).wf(),
            path@.len() == 0 ==> (r matches Err(e) && e == TodoError::PathNotFound && final(self).model() == old(self).model()),
            path@.len() > 0 ==> match spec_parse_path(path@) {
                None => r matches Err(e) && e == TodoError::InvalidPathFormat && final(self).model() == old(self).model(),
                Some(segs) => match spec_apply_in(old(self).model(), segs, 0, op_view(op)) {
                    Ok((lv2, out)) => r matches Ok(o) && final(self).model() == lv2 && out_matches(
                        o,
                        out,
                    ),
                    Err(_) => r is Err && final(self).model() == old(self).model(),
                },
            },
    {
        match parse_path(path) {
            Err(e) => Err(e),
            Ok(segs) => apply_rec(self, &segs, 0, path, op),
        }
    }
}

} // verus!
