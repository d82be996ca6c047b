//! The table of the objects of an encoded tree.
//!
//! The table lists the pairs and atoms of a tree in the order in which their
//! encodings begin, each with counts that say where it stands, and each pair
//! with the place of its second element in the table. No tree is built.

use crate::encoding::{size_field, CONS_BOX_MARKER};
use crate::serialize::decode_size;
use crate::stream::{Cursor, Error};
use vstd::prelude::*;

verus! {

/// One object of a parsed stream, by its place. `start` and `end` are counts
/// that begin at zero where the parsing began; each atom adds one more to the
/// count than it has bytes.
#[derive(Clone, Copy, Debug, PartialEq, Eq, Structural)]
pub enum ParsedClvmObject {
    Atom { start: usize, end: usize, atom_offset: u32 },
    Pair { start: usize, end: usize, right_index: u32 },
}

/// The table of a parsed tree, with the cursor and the count after it.
pub struct ParsedObjects {
    pub objects: Seq<ParsedClvmObject>,
    pub pos: int,
    pub count: int,
}

/// The table of the tree that begins at `pos`: the tree's root first, then the
/// table of the first element, then that of the second. `count` is the count
/// before the tree, and `first_index` the place that its root has in the
/// whole table. An error comes with the place of the cursor after it.
///
/// A pair's `start` is the count after its marker, its `end` the count after
/// its second element, and its `right_index` the place of its second element
/// in the table. An atom's `start` is the count after its first byte; its
/// `atom_offset` is the number of bytes of its size prefix, and its `end` is
/// its `start` and that number and its length together. A byte below `0x80`
/// begins no size prefix, so it is not accepted here.
pub open spec fn parse_objects(bytes: Seq<u8>, pos: int, count: int, first_index: int) -> Result<
    ParsedObjects,
    (Error, int),
>
    decreases bytes.len() - pos,
{
    if pos < 0 || pos >= bytes.len() {
        Err((Error::UnexpectedEof, pos))
    } else if bytes[pos] == CONS_BOX_MARKER {
        match parse_objects(bytes, pos + 1, count + 1, first_index + 1) {
            Err(e) => Err(e),
            Ok(left) => {
                let right_index = first_index + 1 + left.objects.len();
                if pos < left.pos <= bytes.len() {
                    match parse_objects(bytes, left.pos, left.count, right_index) {
                        Err(e) => Err(e),
                        Ok(right) => Ok(
                            ParsedObjects {
                                objects: seq![
                                    ParsedClvmObject::Pair {
                                        start: (count + 1) as usize,
                                        end: right.count as usize,
                                        right_index: right_index as usize as u32,
                                    },
                                ] + left.objects + right.objects,
                                pos: right.pos,
                                count: right.count,
                            },
                        ),
                    }
                } else {
                    Err((Error::Internal, left.pos))
                }
            },
        }
    } else {
        parse_atom_object(bytes, pos, count)
    }
}

/// The table entry of the atom that begins at `pos`.
pub open spec fn parse_atom_object(bytes: Seq<u8>, pos: int, count: int) -> Result<
    ParsedObjects,
    (Error, int),
> {
    let field = size_field(bytes, pos + 1, bytes[pos]);
    match field.result {
        Err(e) => Err((e, field.pos)),
        Ok((prefix, size)) => if field.pos + size > bytes.len() {
            Err((Error::UnexpectedEof, bytes.len() as int))
        } else {
            Ok(
                ParsedObjects {
                    objects: seq![
                        ParsedClvmObject::Atom {
                            start: (count + 1) as usize,
                            end: (count + 1 + prefix + size) as usize,
                            atom_offset: prefix as u32,
                        },
                    ],
                    pos: field.pos + size,
                    count: count + 1 + prefix + size,
                },
            )
        },
    }
}

#[derive(Clone, Copy)]
enum ParseOpZ {
    ParseObj,
    SaveCursor(usize),
    SaveIndex(usize),
}

/// `table` with the `end` of the pair at `index` set.
spec fn with_end(table: Seq<ParsedClvmObject>, index: int, end: usize) -> Seq<ParsedClvmObject> {
    match table[index] {
        ParsedClvmObject::Pair { start, end: _, right_index } => table.update(
            index,
            ParsedClvmObject::Pair { start, end, right_index },
        ),
        _ => table,
    }
}

/// `table` with the `right_index` of the pair at `index` set.
spec fn with_right_index(table: Seq<ParsedClvmObject>, index: int, right_index: u32) -> Seq<
    ParsedClvmObject,
> {
    match table[index] {
        ParsedClvmObject::Pair { start, end, right_index: _ } => table.update(
            index,
            ParsedClvmObject::Pair { start, end, right_index },
        ),
        _ => table,
    }
}

/// The outcome of working off `ops`, last one first, with `table` filled so
/// far.
#[verifier::opaque]
spec fn run_table_ops(
    bytes: Seq<u8>,
    pos: int,
    count: int,
    ops: Seq<ParseOpZ>,
    table: Seq<ParsedClvmObject>,
) -> Result<ParsedObjects, (Error, int)>
    decreases bytes.len() - pos, ops.len(),
{
    if ops.len() == 0 {
        Ok(ParsedObjects { objects: table, pos, count })
    } else {
        match ops.last() {
            ParseOpZ::SaveCursor(index) => run_table_ops(
                bytes,
                pos,
                count,
                ops.drop_last(),
                with_end(table, index as int, count as usize),
            ),
            ParseOpZ::SaveIndex(index) => run_table_ops(
                bytes,
                pos,
                count,
                ops.drop_last(),
                with_right_index(table, index as int, table.len() as usize as u32),
            ),
            ParseOpZ::ParseObj => {
                if pos < 0 || pos >= bytes.len() {
                    Err((Error::UnexpectedEof, pos))
                } else if bytes[pos] == CONS_BOX_MARKER {
                    run_table_ops(
                        bytes,
                        pos + 1,
                        count + 1,
                        pair_ops(ops.drop_last(), table.len() as usize),
                        table.push(blank_pair(count)),
                    )
                } else {
                    match parse_atom_object(bytes, pos, count) {
                        Err(e) => Err(e),
                        Ok(atom) => if pos < atom.pos {
                            run_table_ops(
                                bytes,
                                atom.pos,
                                atom.count,
                                ops.drop_last(),
                                table + atom.objects,
                            )
                        } else {
                            Err((Error::Internal, atom.pos))
                        },
                    }
                }
            },
        }
    }
}

/// A table grows with its tree: the cursor moves on, the count grows by at
/// most twice as much, and the table by at most as much.
pub proof fn lemma_parse_objects(bytes: Seq<u8>, pos: int, count: int, first_index: int)
    requires
        0 <= pos <= bytes.len(),
    ensures
        parse_objects(bytes, pos, count, first_index) matches Ok(p) ==> {
            &&& pos < p.pos <= bytes.len()
            &&& count < p.count <= count + 2 * (p.pos - pos)
            &&& 0 < p.objects.len() <= p.pos - pos
        },
        parse_objects(bytes, pos, count, first_index) matches Err(e) ==> pos <= e.1 <= bytes.len(),
    decreases bytes.len() - pos,
{
    if pos >= bytes.len() {
    } else if bytes[pos] == CONS_BOX_MARKER {
        lemma_parse_objects(bytes, pos + 1, count + 1, first_index + 1);
        if let Ok(left) = parse_objects(bytes, pos + 1, count + 1, first_index + 1) {
            lemma_parse_objects(bytes, left.pos, left.count, first_index + 1 + left.objects.len());
        }
    } else {
    }
}

/// The step that notes the place of a pair's second element.
proof fn lemma_step_save_index(
    bytes: Seq<u8>,
    pos: int,
    count: int,
    ops: Seq<ParseOpZ>,
    index: usize,
    table: Seq<ParsedClvmObject>,
)
    ensures
        run_table_ops(bytes, pos, count, ops.push(ParseOpZ::SaveIndex(index)), table)
            == run_table_ops(
            bytes,
            pos,
            count,
            ops,
            with_right_index(table, index as int, table.len() as usize as u32),
        ),
{
    reveal(run_table_ops);
    let top = ops.push(ParseOpZ::SaveIndex(index));
    assert(top.drop_last() =~= ops);
    assert(top.last() == ParseOpZ::SaveIndex(index));
}

/// The step that notes the end of a pair.
proof fn lemma_step_save_cursor(
    bytes: Seq<u8>,
    pos: int,
    count: int,
    ops: Seq<ParseOpZ>,
    index: usize,
    table: Seq<ParsedClvmObject>,
)
    ensures
        run_table_ops(bytes, pos, count, ops.push(ParseOpZ::SaveCursor(index)), table)
            == run_table_ops(
            bytes,
            pos,
            count,
            ops,
            with_end(table, index as int, count as usize),
        ),
{
    reveal(run_table_ops);
    let top = ops.push(ParseOpZ::SaveCursor(index));
    assert(top.drop_last() =~= ops);
    assert(top.last() == ParseOpZ::SaveCursor(index));
}

/// The operations that a pair leaves to be done, on top of `ops`.
spec fn pair_ops(ops: Seq<ParseOpZ>, index: usize) -> Seq<ParseOpZ> {
    ops.push(ParseOpZ::SaveCursor(index)).push(ParseOpZ::ParseObj).push(
        ParseOpZ::SaveIndex(index),
    ).push(ParseOpZ::ParseObj)
}

/// The table entry of a pair whose elements are still to be read.
spec fn blank_pair(count: int) -> ParsedClvmObject {
    ParsedClvmObject::Pair { start: (count + 1) as usize, end: 0, right_index: 0 }
}

/// The step that reads the start of an object.
proof fn lemma_step_parse_obj(
    bytes: Seq<u8>,
    pos: int,
    count: int,
    ops: Seq<ParseOpZ>,
    table: Seq<ParsedClvmObject>,
)
    ensures
        run_table_ops(bytes, pos, count, ops.push(ParseOpZ::ParseObj), table) == (if pos < 0 || pos
            >= bytes.len() {
            Err::<ParsedObjects, (Error, int)>((Error::UnexpectedEof, pos))
        } else if bytes[pos] == CONS_BOX_MARKER {
            run_table_ops(
                bytes,
                pos + 1,
                count + 1,
                pair_ops(ops, table.len() as usize),
                table.push(blank_pair(count)),
            )
        } else {
            match parse_atom_object(bytes, pos, count) {
                Err(e) => Err(e),
                Ok(atom) => if pos < atom.pos {
                    run_table_ops(bytes, atom.pos, atom.count, ops, table + atom.objects)
                } else {
                    Err((Error::Internal, atom.pos))
                },
            }
        }),
{
    reveal(run_table_ops);
    let top = ops.push(ParseOpZ::ParseObj);
    assert(top.drop_last() =~= ops);
    assert(top.last() == ParseOpZ::ParseObj);
}

/// Nothing left to do.
proof fn lemma_step_done(bytes: Seq<u8>, pos: int, count: int, table: Seq<ParsedClvmObject>)
    ensures
        run_table_ops(bytes, pos, count, Seq::<ParseOpZ>::empty(), table) == Ok::<
            ParsedObjects,
            (Error, int),
        >(ParsedObjects { objects: table, pos, count }),
{
    reveal(run_table_ops);
}

/// The table once the second element's place is noted in the pair at
/// `index`, and once the pair's end is.
proof fn lemma_fill_pair(
    table: Seq<ParsedClvmObject>,
    count: int,
    left: Seq<ParsedClvmObject>,
    right: Seq<ParsedClvmObject>,
    end: usize,
)
    ensures
        ({
            let index = table.len() as int;
            let table2 = table.push(blank_pair(count)) + left;
            let right_index = table2.len() as usize as u32;
            let table3 = with_right_index(table2, index, right_index);
            let table4 = table3 + right;
            let done = ParsedClvmObject::Pair { start: (count + 1) as usize, end, right_index };
            &&& table3.len() == table2.len()
            &&& with_end(table4, index, end) == table + (seq![done] + left + right)
        }),
{
    let index = table.len() as int;
    let table1 = table.push(blank_pair(count));
    let table2 = table1 + left;
    let right_index = table2.len() as usize as u32;
    assert(table2[index] == blank_pair(count));
    let table3 = with_right_index(table2, index, right_index);
    assert(table3 == table2.update(
        index,
        ParsedClvmObject::Pair { start: (count + 1) as usize, end: 0, right_index },
    ));
    let table4 = table3 + right;
    assert(table4[index] == table3[index]);
    let done = ParsedClvmObject::Pair { start: (count + 1) as usize, end, right_index };
    assert(with_end(table4, index, end) == table4.update(index, done));
    assert(table4.update(index, done) =~= table + (seq![done] + left + right));
}

/// Working off "read an object" and then `ops` is reading the object's
/// whole table and then working off `ops`.
proof fn lemma_run_parse_obj(
    bytes: Seq<u8>,
    pos: int,
    count: int,
    ops: Seq<ParseOpZ>,
    table: Seq<ParsedClvmObject>,
)
    requires
        0 <= pos <= bytes.len(),
        0 <= count,
        count + 2 * (bytes.len() - pos) <= usize::MAX,
        table.len() + (bytes.len() - pos) <= usize::MAX,
    ensures
        run_table_ops(bytes, pos, count, ops.push(ParseOpZ::ParseObj), table) == match parse_objects(
            bytes,
            pos,
            count,
            table.len() as int,
        ) {
            Err(e) => Err::<ParsedObjects, (Error, int)>(e),
            Ok(p) => run_table_ops(bytes, p.pos, p.count, ops, table + p.objects),
        },
    decreases bytes.len() - pos,
{
    lemma_step_parse_obj(bytes, pos, count, ops, table);
    if pos >= bytes.len() {
    } else if bytes[pos] == CONS_BOX_MARKER {
        let index = table.len() as usize;
        let table1 = table.push(blank_pair(count));
        let ops1 = ops.push(ParseOpZ::SaveCursor(index));
        let ops2 = ops1.push(ParseOpZ::ParseObj);
        let ops3 = ops2.push(ParseOpZ::SaveIndex(index));
        assert(pair_ops(ops, index) == ops3.push(ParseOpZ::ParseObj));
        lemma_run_parse_obj(bytes, pos + 1, count + 1, ops3, table1);
        lemma_parse_objects(bytes, pos + 1, count + 1, table1.len() as int);
        let first = parse_objects(bytes, pos + 1, count + 1, table1.len() as int);
        assert(first == parse_objects(bytes, pos + 1, count + 1, table.len() as int + 1));
        if let Ok(left) = first {
            let table2 = table1 + left.objects;
            let right_index = table2.len() as usize as u32;
            let table3 = with_right_index(table2, index as int, right_index);
            lemma_step_save_index(bytes, left.pos, left.count, ops2, index, table2);
            lemma_fill_pair(table, count, left.objects, Seq::empty(), 0);
            lemma_run_parse_obj(bytes, left.pos, left.count, ops1, table3);
            lemma_parse_objects(bytes, left.pos, left.count, table3.len() as int);
            let second = parse_objects(bytes, left.pos, left.count, table3.len() as int);
            assert(second == parse_objects(
                bytes,
                left.pos,
                left.count,
                table.len() as int + 1 + left.objects.len(),
            ));
            if let Ok(right) = second {
                let table4 = table3 + right.objects;
                lemma_step_save_cursor(bytes, right.pos, right.count, ops, index, table4);
                lemma_fill_pair(table, count, left.objects, right.objects, right.count as usize);
            }
        }
    } else {
    }
}

/// Reads one tree from `f` and returns the table of its objects, the root
/// first, each pair before its elements.
pub fn parse_zz(f: &mut Cursor) -> (r: Result<Vec<ParsedClvmObject>, Error>)
    requires
        old(f).wf(),
        2 * (old(f).bytes().len() - old(f).offset()) <= usize::MAX,
    ensures
        final(f).wf(),
        final(f).bytes() == old(f).bytes(),
        match parse_objects(old(f).bytes(), old(f).offset(), 0, 0) {
            Ok(p) => r matches Ok(v) && v@ == p.objects && final(f).offset() == p.pos,
            Err(e) => r == Err::<Vec<ParsedClvmObject>, Error>(e.0) && final(f).offset() == e.1,
        },
{
    let mut r: Vec<ParsedClvmObject> = Vec::new();
    let mut op_stack: Vec<ParseOpZ> = Vec::new();
    op_stack.push(ParseOpZ::ParseObj);
    let mut cursor: usize = 0;
    let ghost bytes = f.bytes();
    let ghost pos0 = f.offset();
    let ghost goal = parse_objects(bytes, pos0, 0, 0);
    proof {
        f.lemma_bounds();
        lemma_run_parse_obj(bytes, pos0, 0, Seq::<ParseOpZ>::empty(), Seq::<ParsedClvmObject>::empty());
        assert(op_stack@ =~= Seq::<ParseOpZ>::empty().push(ParseOpZ::ParseObj));
        if let Ok(p) = goal {
            assert(Seq::<ParsedClvmObject>::empty() + p.objects =~= p.objects);
            lemma_step_done(bytes, p.pos, p.count, p.objects);
        }
    }
    loop
        invariant_except_break
            run_table_ops(bytes, f.offset(), cursor as int, op_stack@, r@) == goal,
        invariant
            f.wf(),
            f.bytes() == bytes,
            bytes == old(f).bytes(),
            pos0 == old(f).offset(),
            goal == parse_objects(bytes, pos0, 0, 0),
            0 <= pos0 <= f.offset() <= bytes.len(),
            2 * (bytes.len() - pos0) <= usize::MAX,
            cursor <= 2 * (f.offset() - pos0),
            r@.len() <= f.offset() - pos0,
            forall|i: int|
                0 <= i < op_stack@.len() ==> match #[trigger] op_stack@[i] {
                    ParseOpZ::ParseObj => true,
                    ParseOpZ::SaveCursor(index) => index < r@.len(),
                    ParseOpZ::SaveIndex(index) => index < r@.len(),
                },
        ensures
            goal == Ok::<ParsedObjects, (Error, int)>(
                ParsedObjects { objects: r@, pos: f.offset(), count: cursor as int },
            ),
        decreases bytes.len() - f.offset(), op_stack@.len(),
    {
        let ghost ops_before = op_stack@;
        let ghost pos = f.offset();
        let ghost table = r@;
        let op: Option<ParseOpZ> = op_stack.pop();
        if op.is_none() {
            proof {
                assert(ops_before =~= Seq::<ParseOpZ>::empty());
                lemma_step_done(bytes, pos, cursor as int, table);
            }
            break ;
        }
        assert(op_stack@ == ops_before.drop_last());
        assert(op.unwrap() == ops_before.last());
        assert(ops_before =~= op_stack@.push(op.unwrap()));
        proof {
            match op.unwrap() {
                ParseOpZ::ParseObj => {
                    lemma_step_parse_obj(bytes, pos, cursor as int, op_stack@, table);
                },
                ParseOpZ::SaveCursor(index) => {
                    lemma_step_save_cursor(bytes, pos, cursor as int, op_stack@, index, table);
                },
                ParseOpZ::SaveIndex(index) => {
                    lemma_step_save_index(bytes, pos, cursor as int, op_stack@, index, table);
                },
            }
        }
        let ghost rest = op_stack@;
        match op.unwrap() {
            ParseOpZ::ParseObj => {
                let b: u8 = match f.read_u8() {
                    Ok(b) => b,
                    Err(e) => {
                        return Err(e);
                    },
                };
                cursor += 1;
                if b == CONS_BOX_MARKER {
                    let index: usize = r.len();
                    let new_obj = ParsedClvmObject::Pair { start: cursor, end: 0, right_index: 0 };
                    r.push(new_obj);
                    op_stack.push(ParseOpZ::SaveCursor(index));
                    op_stack.push(ParseOpZ::ParseObj);
                    op_stack.push(ParseOpZ::SaveIndex(index));
                    op_stack.push(ParseOpZ::ParseObj);
                    assert(op_stack@ == pair_ops(rest, index));
                    assert(new_obj == blank_pair(cursor - 1));
                } else {
                    let (atom_offset, atom_size) = match decode_size(f, b) {
                        Ok(sizes) => sizes,
                        Err(e) => {
                            return Err(e);
                        },
                    };
                    match f.read_exact(atom_size) {
                        Ok(_) => {},
                        Err(e) => {
                            return Err(e);
                        },
                    }
                    let final_cursor: usize = cursor + atom_offset + atom_size as usize;
                    let new_obj = ParsedClvmObject::Atom {
                        start: cursor,
                        end: final_cursor,
                        atom_offset: atom_offset as u32,
                    };
                    cursor = final_cursor;
                    proof {
                        assert(r@.push(new_obj) =~= r@ + seq![new_obj]);
                    }
                    r.push(new_obj);
                }
            },
            ParseOpZ::SaveCursor(index) => {
                if let ParsedClvmObject::Pair { start, end: _, right_index } = r[index] {
                    r[index] = ParsedClvmObject::Pair { start, end: cursor, right_index };
                }
            },
            ParseOpZ::SaveIndex(index) => {
                if let ParsedClvmObject::Pair { start, end, right_index: _ } = r[index] {
                    r[index] = ParsedClvmObject::Pair {
                        start,
                        end,
                        right_index: #[verifier::truncate]
                        (r.len() as u32),
                    };
                }
            },
        }
    }
    Ok(r)
}

} // verus!
