//! The texts of a command: the program to run and its arguments, as a
//! value names them.

use vstd::prelude::*;
use crate::array::{views, Array, ArrayView};
use crate::error::{ErrorKind, ErrorView, Kind, Op, UiuaError, failure};
use crate::value::{lemma_value_view, Boxed, Value, ValueView};

verus! {

/// The rows of a table of characters
pub open spec fn table_rows(a: ArrayView<char>) -> Seq<Seq<char>> {
    let w = a.shape.sizes[1] as int;
    Seq::new(a.shape.sizes[0] as nat, |i: int| a.data.subrange(i * w, i * w + w))
}

/// The text that a box holds: the characters of a character scalar or
/// list. Any other value in a box is an error, which names its kind.
pub open spec fn boxed_text(v: ValueView) -> Result<Seq<char>, ErrorView> {
    match v {
        ValueView::Char(a) => if a.shape.sizes.len() <= 1 {
            Ok(a.data)
        } else {
            Err(failure(Op::Command, ErrorKind::NotText(Kind::Char)))
        },
        _ => Err(failure(Op::Command, ErrorKind::NotText(v.kind()))),
    }
}

/// The texts that the boxes from place `from` on hold, in order; the
/// first error where one of them holds no text
pub open spec fn boxed_texts(s: Seq<ValueView>, from: int) -> Result<Seq<Seq<char>>, ErrorView>
    decreases s.len() - from,
{
    if from < 0 || from >= s.len() {
        Ok(Seq::empty())
    } else {
        match boxed_text(s[from]) {
            Err(e) => Err(e),
            Ok(t) => match boxed_texts(s, from + 1) {
                Err(e) => Err(e),
                Ok(rest) => Ok(seq![t] + rest),
            },
        }
    }
}

/// The texts that a value holds, whether or not there is one: the text of
/// a character scalar or list, the rows of a table of characters, or the
/// texts in the boxes of a box scalar or list. It is an error for an array
/// of another kind or of a higher rank, and for a box that holds no text.
pub open spec fn held_texts(v: ValueView) -> Result<Seq<Seq<char>>, ErrorView> {
    match v {
        ValueView::Char(a) => if a.shape.sizes.len() <= 1 {
            Ok(seq![a.data])
        } else if a.shape.sizes.len() == 2 {
            Ok(table_rows(a))
        } else {
            Err(failure(Op::Command, ErrorKind::Rank(a.shape.sizes.len() as usize)))
        },
        ValueView::Box(a) => if a.shape.sizes.len() <= 1 {
            boxed_texts(a.data, 0)
        } else {
            Err(failure(Op::Command, ErrorKind::Rank(a.shape.sizes.len() as usize)))
        },
        _ => Err(failure(Op::Command, ErrorKind::WrongKind(v.kind()))),
    }
}

/// The texts of the command that a value names, the program first and
/// then its arguments: the texts that the value holds. It is an error
/// where the value holds no text at all.
pub open spec fn command_texts(v: ValueView) -> Result<Seq<Seq<char>>, ErrorView> {
    match held_texts(v) {
        Ok(texts) => if texts.len() == 0 {
            Err(failure(Op::Command, ErrorKind::Empty))
        } else {
            Ok(texts)
        },
        Err(e) => Err(e),
    }
}

/// What the texts are that a vector of texts holds
pub open spec fn texts_view(texts: Seq<Vec<char>>) -> Seq<Seq<char>> {
    Seq::new(texts.len(), |i: int| texts[i]@)
}

/// The rows of a table of characters.
fn rows_of_table(a: &Array<char>) -> (r: Vec<Vec<char>>)
    requires
        a.wf(),
        a@.shape.sizes.len() == 2,
    ensures
        texts_view(r@) == table_rows(a@),
{
    let sizes = a.shape.sizes();
    let rows = sizes[0];
    let w = sizes[1];
    proof {
        assert(sizes@ =~= seq![rows, w]);
        crate::algorithm::wher::lemma_count_pair(rows, w);
        assert(views(a.data@) =~= a.data@);
        assert(a.data@.len() == rows * w);
        assert(a.data@.len() == a.data.len());
    }
    let ghost goal = table_rows(a@);
    let mut texts: Vec<Vec<char>> = Vec::new();
    let mut i: usize = 0;
    while i < rows
        invariant
            i <= rows,
            a.data@.len() == rows * w,
            a@.data == a.data@,
            a@.shape.sizes.len() == 2,
            rows == a@.shape.sizes[0],
            w == a@.shape.sizes[1],
            goal == table_rows(a@),
            texts@.len() == i,
            forall|k: int| 0 <= k < i ==> (#[trigger] texts@[k])@ == goal[k],
        decreases rows - i,
    {
        proof {
            crate::index::lemma_row_bounds(i as int, w as int, rows as int);
            assert(a.data@.len() == a.data.len());
        }
        let row = vstd::slice::slice_subrange(a.data.as_slice(), i * w, i * w + w);
        texts.push(vstd::slice::slice_to_vec(row));
        i += 1;
    }
    assert(texts_view(texts@) =~= goal);
    texts
}

/// The texts in the boxes.
fn texts_of_boxes(boxes: &Vec<Boxed>) -> (r: Result<Vec<Vec<char>>, UiuaError>)
    ensures
        match r {
            Ok(texts) => boxed_texts(views(boxes@), 0) == Ok::<Seq<Seq<char>>, ErrorView>(
                texts_view(texts@),
            ),
            Err(e) => boxed_texts(views(boxes@), 0) == Err::<Seq<Seq<char>>, ErrorView>(e@),
        },
{
    let ghost items = views(boxes@);
    let n = boxes.len();
    let mut texts: Vec<Vec<char>> = Vec::new();
    let mut i: usize = 0;
    proof {
        assert(texts_view(texts@) + boxed_texts(items, 0)->Ok_0 =~= boxed_texts(items, 0)->Ok_0);
    }
    while i < n
        invariant
            i <= n,
            n == boxes@.len(),
            items == views(boxes@),
            texts@.len() == i,
            match boxed_texts(items, i as int) {
                Ok(rest) => boxed_texts(items, 0) == Ok::<Seq<Seq<char>>, ErrorView>(
                    texts_view(texts@) + rest,
                ),
                Err(e) => boxed_texts(items, 0) == Err::<Seq<Seq<char>>, ErrorView>(e),
            },
        decreases n - i,
    {
        let held = &boxes[i].0;
        let ghost done = texts_view(texts@);
        proof {
            lemma_value_view(*held);
            assert(items[i as int] == held@);
        }
        match held {
            Value::Char(c) => {
                if c.shape.rank() > 1 {
                    return Err(UiuaError::new(Op::Command, ErrorKind::NotText(Kind::Char)));
                }
                proof {
                    assert(views(c.data@) =~= c.data@);
                }
                let text = vstd::slice::slice_to_vec(c.data.as_slice());
                texts.push(text);
                proof {
                    assert(texts_view(texts@) =~= done + seq![text@]);
                    match boxed_texts(items, i + 1) {
                        Ok(rest) => {
                            assert(done + (seq![text@] + rest) =~= texts_view(texts@) + rest);
                        },
                        Err(e) => {},
                    }
                }
            },
            _ => {
                return Err(UiuaError::new(Op::Command, ErrorKind::NotText(held.kind())));
            },
        }
        i += 1;
    }
    proof {
        assert(texts_view(texts@) + Seq::<Seq<char>>::empty() =~= texts_view(texts@));
    }
    Ok(texts)
}

/// The texts of the command that a value names: the program first, then
/// its arguments.
pub fn value_to_command(value: &Value) -> (r: Result<Vec<Vec<char>>, UiuaError>)
    requires
        value.wf(),
    ensures
        match r {
            Ok(texts) => command_texts(value@) == Ok::<Seq<Seq<char>>, ErrorView>(
                Seq::new(texts@.len(), |i: int| texts@[i]@),
            ),
            Err(e) => command_texts(value@) == Err::<Seq<Seq<char>>, ErrorView>(e@),
        },
{
    proof {
        lemma_value_view(*value);
    }
    let texts = match value {
        Value::Char(a) => {
            let rank = a.shape.rank();
            if rank <= 1 {
                proof {
                    assert(views(a.data@) =~= a.data@);
                }
                let mut texts: Vec<Vec<char>> = Vec::new();
                texts.push(vstd::slice::slice_to_vec(a.data.as_slice()));
                assert(texts_view(texts@) =~= seq![a@.data]);
                texts
            } else if rank == 2 {
                rows_of_table(a)
            } else {
                return Err(UiuaError::new(Op::Command, ErrorKind::Rank(rank)));
            }
        },
        Value::Box(a) => {
            let rank = a.shape.rank();
            if rank > 1 {
                return Err(UiuaError::new(Op::Command, ErrorKind::Rank(rank)));
            }
            match texts_of_boxes(&a.data) {
                Ok(texts) => texts,
                Err(e) => {
                    return Err(e);
                },
            }
        },
        _ => {
            return Err(UiuaError::new(Op::Command, ErrorKind::WrongKind(value.kind())));
        },
    };
    assert(held_texts(value@) == Ok::<Seq<Seq<char>>, ErrorView>(texts_view(texts@)));
    if texts.len() == 0 {
        return Err(UiuaError::new(Op::Command, ErrorKind::Empty));
    }
    Ok(texts)
}

} // verus!
