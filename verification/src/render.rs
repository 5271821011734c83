use vstd::prelude::*;
use vstd::string::StrSliceExecFns;
use crate::datetime::{dec_digits, push_dec_digits};
use crate::text::string_from_chars;
use crate::todo_list::{TodoItem, TodoList, ItemView, shown_of};

verus! {

/// The text shown for one item: the indent, a checkmark box, the identifier,
/// the description, the count of open sub-items if a sub-list exists, the
/// deadline text if one is set, and then the item's shown children indented
/// two spaces deeper. Which children are shown follows the same
/// `show_completed` choice at every level.
pub open spec fn spec_render_item(iv: ItemView, ind: Seq<char>, show: bool) -> Seq<char>
    decreases iv,
{
    ind + seq!['['] + (if iv.completed {
        seq!['x']
    } else {
        seq![' ']
    }) + seq![']', ' ', '#'] + dec_digits(iv.id as int) + seq![':', ' '] + iv.description
        + (match iv.sub_list {
        None => Seq::empty(),
        Some(l) => seq!['('] + dec_digits(shown_of(l.items, false).len() as int) + seq![')'],
    }) + seq![' '] + (match iv.deadline {
        None => Seq::empty(),
        Some(t) => seq!['|', ' ', 'd', 'e', 'a', 'd', 'l', 'i', 'n', 'e', ':', ' '] + t,
    }) + seq!['\n'] + (match iv.sub_list {
        None => Seq::empty(),
        Some(l) => spec_render_children(l.items, ind + seq![' ', ' '], show),
    })
}

/// The text of a sequence of items, keeping only the shown ones.
pub open spec fn spec_render_children(items: Seq<ItemView>, ind: Seq<char>, show: bool) -> Seq<
    char,
>
    decreases items,
{
    if items.len() == 0 {
        Seq::empty()
    } else {
        (if show || !items.first().completed {
            spec_render_item(items.first(), ind, show)
        } else {
            Seq::empty()
        }) + spec_render_children(items.drop_first(), ind, show)
    }
}

/// Rendering one more child appends its text exactly when it is shown.
proof fn lemma_children_snoc(v: Seq<ItemView>, x: ItemView, ind: Seq<char>, show: bool)
    ensures
        spec_render_children(v.push(x), ind, show) == spec_render_children(v, ind, show) + (if show
            || !x.completed {
            spec_render_item(x, ind, show)
        } else {
            Seq::empty()
        }),
    decreases v.len(),
{
    let piece = if show || !x.completed {
        spec_render_item(x, ind, show)
    } else {
        Seq::empty()
    };
    if v.len() == 0 {
        assert(v.push(x).len() == 1);
        assert(v.push(x).first() == x);
        assert(v.push(x).drop_first() =~= Seq::<ItemView>::empty());
        assert(spec_render_children(v.push(x).drop_first(), ind, show) == Seq::<char>::empty());
        assert(spec_render_children(v, ind, show) == Seq::<char>::empty());
        assert(spec_render_children(v.push(x), ind, show) =~= spec_render_children(v, ind, show)
            + piece);
    } else {
        assert(v.push(x).first() == v.first());
        assert(v.push(x).drop_first() =~= v.drop_first().push(x));
        lemma_children_snoc(v.drop_first(), x, ind, show);
        assert(spec_render_children(v.push(x), ind, show) =~= spec_render_children(v, ind, show)
            + piece);
    }
}

/// Append the characters of a text.
fn push_chars(out: &mut Vec<char>, s: &String)
    ensures
        final(out)@ == old(out)@ + s@,
{
    let n = s.as_str().unicode_len();
    let mut i: usize = 0;
    while i < n
        invariant
            i <= n,
            n == s@.len(),
            out@ == old(out)@ + s@.subrange(0, i as int),
        decreases n - i,
    {
        out.push(s.as_str().get_char(i));
        proof {
            assert(out@ =~= old(out)@ + s@.subrange(0, i + 1));
        }
        i = i + 1;
    }
    proof {
        assert(s@.subrange(0, n as int) =~= s@);
    }
}

/// Append the rendered text of one item and its shown descendants.
#[verifier::rlimit(100)]
#[verifier::spinoff_prover]
fn render_item_into(item: &TodoItem, ind: &Vec<char>, show: bool, out: &mut Vec<char>)
    ensures
        final(out)@ == old(out)@ + spec_render_item(item.model(), ind@, show),
    decreases *item,
{
    let ghost o0 = out@;
    let ghost iv = item.model();
    let ni = ind.len();
    let mut i: usize = 0;
    while i < ni
        invariant
            i <= ni,
            ni == ind@.len(),
            out@ == o0 + ind@.subrange(0, i as int),
        decreases ni - i,
    {
        out.push(ind[i]);
        proof {
            assert(out@ =~= o0 + ind@.subrange(0, i + 1));
        }
        i = i + 1;
    }
    proof {
        assert(ind@.subrange(0, ni as int) =~= ind@);
    }
    out.push('[');
    if item.completed {
        out.push('x');
    } else {
        out.push(' ');
    }
    out.push(']');
    out.push(' ');
    out.push('#');
    push_dec_digits(out, item.id as u64);
    out.push(':');
    out.push(' ');
    push_chars(out, &item.description);
    let ghost head = ind@ + seq!['['] + (if iv.completed {
        seq!['x']
    } else {
        seq![' ']
    }) + seq![']', ' ', '#'] + dec_digits(iv.id as int) + seq![':', ' '] + iv.description;
    proof {
        assert(out@ =~= o0 + head);
    }
    match &item.sub_list {
        None => {},
        Some(l) => {
            out.push('(');
            let c = l.todo_len();
            push_dec_digits(out, c as u64);
            out.push(')');
        },
    }
    let ghost head2 = head + (match iv.sub_list {
        None => Seq::<char>::empty(),
        Some(l) => seq!['('] + dec_digits(shown_of(l.items, false).len() as int) + seq![')'],
    });
    proof {
        assert(out@ =~= o0 + head2);
    }
    out.push(' ');
    match &item.deadline {
        None => {},
        Some(t) => {
            out.push('|');
            out.push(' ');
            out.push('d');
            out.push('e');
            out.push('a');
            out.push('d');
            out.push('l');
            out.push('i');
            out.push('n');
            out.push('e');
            out.push(':');
            out.push(' ');
            push_chars(out, t);
        },
    }
    out.push('\n');
    let ghost head3 = head2 + seq![' '] + (match iv.deadline {
        None => Seq::<char>::empty(),
        Some(t) => seq!['|', ' ', 'd', 'e', 'a', 'd', 'l', 'i', 'n', 'e', ':', ' '] + t,
    }) + seq!['\n'];
    proof {
        assert(out@ =~= o0 + head3);
    }
    match &item.sub_list {
        None => {
            proof {
                assert(out@ =~= o0 + spec_render_item(iv, ind@, show));
            }
        },
        Some(l) => {
            let mut ind2: Vec<char> = Vec::new();
            let mut j: usize = 0;
            while j < ni
                invariant
                    j <= ni,
                    ni == ind@.len(),
                    ind2@ == ind@.subrange(0, j as int),
                decreases ni - j,
            {
                ind2.push(ind[j]);
                proof {
                    assert(ind2@ =~= ind@.subrange(0, j + 1));
                }
                j = j + 1;
            }
            ind2.push(' ');
            ind2.push(' ');
            proof {
                assert(ind@.subrange(0, ni as int) =~= ind@);
                assert(ind2@ =~= ind@ + seq![' ', ' ']);
            }
            render_children_into(l, &ind2, show, out);
            proof {
                assert(final(out)@ =~= o0 + spec_render_item(iv, ind@, show));
            }
        },
    }
}

/// Append the rendered text of the shown items of one list.
fn render_children_into(l: &TodoList, ind: &Vec<char>, show: bool, out: &mut Vec<char>)
    ensures
        final(out)@ == old(out)@ + spec_render_children(l.model().items, ind@, show),
    decreases *l,
{
    let ghost o1 = out@;
    let ghost sub = l.model();
    let n = l.items.len();
    let mut k: usize = 0;
    while k < n
        invariant
            k <= n,
            n == l.items@.len(),
            sub == l.model(),
            out@ == o1 + spec_render_children(sub.items.subrange(0, k as int), ind@, show),
        decreases n - k,
    {
        proof {
            assert(l.items@[k as int].model() == sub.items[k as int]);
        }
        if show || !l.items[k].completed {
            render_item_into(&l.items[k], ind, show, out);
        }
        proof {
            lemma_children_snoc(sub.items.subrange(0, k as int), sub.items[k as int], ind@, show);
            assert(sub.items.subrange(0, k as int).push(sub.items[k as int]) =~= sub.items.subrange(
                0,
                k + 1,
            ));
            assert(out@ =~= o1 + spec_render_children(sub.items.subrange(0, k + 1), ind@, show));
        }
        k = k + 1;
    }
    proof {
        assert(sub.items.subrange(0, n as int) =~= sub.items);
    }
}

impl TodoItem {
    /// The display text of this item and its shown descendants, from the
    /// given indent inward.
    pub fn render(&self, show_completed: bool) -> (s: String)
        ensures
            s@ == spec_render_item(self.model(), Seq::empty(), show_completed),
    {
        let ind: Vec<char> = Vec::new();
        let mut out: Vec<char> = Vec::new();
        render_item_into(self, &ind, show_completed, &mut out);
        proof {
            assert(ind@ =~= Seq::<char>::empty());
        }
        string_from_chars(&out)
    }
}

} // verus!
