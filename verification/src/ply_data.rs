//! The walk through the data section of a PLY file: which value comes next
//! (element, instance, property, place in a list, type, byte offset), when
//! the binary data is too short, and when every element has been read.
//!
//! The caller decodes each value (a token of the ASCII body, or the bytes at
//! the offset of a binary one) and reports back; the walk decides the rest.

use vstd::prelude::*;
use crate::ply::{elements_view, ply_type_size, ElemView, PlyHeader, PlyType};

verus! {

/// The first property slot at or after (element `e`, instance `i`,
/// property `p`) in reading order: elements in turn, each instance of an
/// element in turn, each property of an instance in turn. Past the last
/// slot it is `(es.len(), 0, 0)`.
pub open spec fn settle(es: Seq<ElemView>, e: nat, i: nat, p: nat) -> (nat, nat, nat)
    decreases es.len() - e, (if e < es.len() { es[e as int].1 - i } else { 0int }),
{
    if e >= es.len() {
        (es.len(), 0, 0)
    } else if i >= es[e as int].1 {
        settle(es, e + 1, 0, 0)
    } else if p >= es[e as int].2.len() {
        settle(es, e, i + 1, 0)
    } else {
        (e, i, p)
    }
}

/// (element, instance, property) names a property of an instance.
pub open spec fn is_slot(es: Seq<ElemView>, e: nat, i: nat, p: nat) -> bool {
    e < es.len() && i < es[e as int].1 && p < es[e as int].2.len()
}

/// Reading order on slots.
pub open spec fn slot_lt(a: (nat, nat, nat), b: (nat, nat, nat)) -> bool {
    a.0 < b.0 || (a.0 == b.0 && (a.1 < b.1 || (a.1 == b.1 && a.2 < b.2)))
}

/// Settling never goes back, lands on a slot (or past the end), and passes
/// over no slot: every slot from (e, i, p) up to where it lands is the one
/// it lands on.
pub proof fn lemma_settle_skips_nothing(es: Seq<ElemView>, e: nat, i: nat, p: nat)
    ensures
        settle(es, e, i, p).0 <= es.len(),
        settle(es, e, i, p).0 < es.len() ==> is_slot(
            es,
            settle(es, e, i, p).0,
            settle(es, e, i, p).1,
            settle(es, e, i, p).2,
        ),
        e < es.len() ==> !slot_lt(settle(es, e, i, p), (e, i, p)),
        forall|x: nat, y: nat, z: nat|
            #![trigger is_slot(es, x, y, z)]
            is_slot(es, x, y, z) && !slot_lt((x, y, z), (e, i, p)) ==> !slot_lt(
                (x, y, z),
                settle(es, e, i, p),
            ),
    decreases es.len() - e, (if e < es.len() { es[e as int].1 - i } else { 0int }),
{
    if e >= es.len() {
    } else if i >= es[e as int].1 {
        lemma_settle_skips_nothing(es, e + 1, 0, 0);
    } else if p >= es[e as int].2.len() {
        lemma_settle_skips_nothing(es, e, i + 1, 0);
    } else {
    }
}

/// An element without properties is passed over whatever instance the walk is at.
proof fn lemma_settle_no_properties(es: Seq<ElemView>, e: nat, i: nat, p: nat)
    requires
        e < es.len(),
        es[e as int].2.len() == 0,
    ensures
        settle(es, e, i, p) == settle(es, e + 1, 0, 0),
    decreases es[e as int].1 - i,
{
    if i < es[e as int].1 {
        lemma_settle_no_properties(es, e, i + 1, 0);
    }
}

/// What the reader of the data section does next.
#[derive(Clone, Copy, PartialEq, Eq, Structural, Debug)]
pub enum DataRead {
    /// Read the length of the list property, of type `length_type` (in a
    /// binary file, the bytes at `offset`).
    Length { element: usize, instance: usize, property: usize, length_type: PlyType, offset: usize },
    /// Read a value of type `ptype`: `index` 0 for a scalar property, `k + 1`
    /// for item `k` of a list of `len` items.
    Value {
        element: usize,
        instance: usize,
        property: usize,
        index: usize,
        len: usize,
        ptype: PlyType,
        offset: usize,
    },
    /// Every element has been read.
    Finished,
    /// The binary data ends before the next value.
    Truncated,
}

/// Where the reader of the data section stands: the slot, the list being
/// read there (once its length is known), and the byte offset in a binary file.
#[derive(Clone, Copy, PartialEq, Eq, Structural, Debug)]
pub struct DataCursor {
    pub element: usize,
    pub instance: usize,
    pub property: usize,
    pub in_list: bool,
    pub list_len: usize,
    pub list_done: usize,
    pub offset: usize,
}

/// The cursor at a slot, before anything of it is read.
pub open spec fn cursor_at(slot: (nat, nat, nat), offset: usize) -> DataCursor {
    DataCursor {
        element: slot.0 as usize,
        instance: slot.1 as usize,
        property: slot.2 as usize,
        in_list: false,
        list_len: 0,
        list_done: 0,
        offset,
    }
}

/// Where reading starts: the first slot, at the start of the data.
pub open spec fn start_spec(h: (bool, bool, Seq<ElemView>, usize)) -> DataCursor {
    cursor_at(settle(h.2, 0, 0, 0), h.3)
}

impl DataCursor {
    /// The cursor stands at a slot of `es` (or past the last one), and inside
    /// a list only with items of it left to read.
    pub open spec fn wf(&self, es: Seq<ElemView>) -> bool {
        &&& self.element <= es.len()
        &&& self.element < es.len() ==> is_slot(
            es,
            self.element as nat,
            self.instance as nat,
            self.property as nat,
        )
        &&& self.in_list ==> self.element < es.len() && es[self.element as int].2[self.property as int].2
            && self.list_done < self.list_len
    }

    /// The next read, for a file with the given format, elements and data length.
    pub open spec fn read_at(&self, ascii: bool, es: Seq<ElemView>, data_len: nat) -> DataRead {
        if self.element >= es.len() {
            DataRead::Finished
        } else {
            let prop = es[self.element as int].2[self.property as int];
            if prop.2 && !self.in_list {
                if !ascii && self.offset + ply_type_size(prop.3) > data_len {
                    DataRead::Truncated
                } else {
                    DataRead::Length {
                        element: self.element,
                        instance: self.instance,
                        property: self.property,
                        length_type: prop.3,
                        offset: self.offset,
                    }
                }
            } else if !ascii && self.offset + ply_type_size(prop.1) > data_len {
                DataRead::Truncated
            } else {
                DataRead::Value {
                    element: self.element,
                    instance: self.instance,
                    property: self.property,
                    index: if self.in_list {
                        (self.list_done + 1) as usize
                    } else {
                        0
                    },
                    len: if self.in_list {
                        self.list_len
                    } else {
                        0
                    },
                    ptype: prop.1,
                    offset: self.offset,
                }
            }
        }
    }

    /// The cursor at the slot after this one, with the data read up to `offset`.
    pub open spec fn next_slot(&self, es: Seq<ElemView>, offset: usize) -> DataCursor {
        cursor_at(
            settle(es, self.element as nat, self.instance as nat, self.property as nat + 1),
            offset,
        )
    }

    /// The cursor once a list length `len` of type `t` has been read.
    pub open spec fn after_length_spec(
        &self,
        ascii: bool,
        es: Seq<ElemView>,
        t: PlyType,
        len: usize,
    ) -> DataCursor {
        let offset = if ascii {
            self.offset
        } else {
            (self.offset + ply_type_size(t)) as usize
        };
        if len == 0 {
            self.next_slot(es, offset)
        } else {
            DataCursor { in_list: true, list_len: len, list_done: 0, offset, ..*self }
        }
    }

    /// The cursor once a value of type `t` has been read.
    pub open spec fn after_value_spec(&self, ascii: bool, es: Seq<ElemView>, t: PlyType) -> DataCursor {
        let offset = if ascii {
            self.offset
        } else {
            (self.offset + ply_type_size(t)) as usize
        };
        if self.in_list && self.list_done + 1 < self.list_len {
            DataCursor { list_done: (self.list_done + 1) as usize, offset, ..*self }
        } else {
            self.next_slot(es, offset)
        }
    }

    /// Where reading the data section of a file with this header starts.
    pub fn start(header: &PlyHeader) -> (c: DataCursor)
        ensures
            c == start_spec(header@),
            c.wf(header@.2),
    {
        let (e, i, p) = settle_exec(header, 0, 0, 0);
        proof {
            lemma_settle_skips_nothing(header@.2, 0, 0, 0);
        }
        DataCursor {
            element: e,
            instance: i,
            property: p,
            in_list: false,
            list_len: 0,
            list_done: 0,
            offset: header.data_offset,
        }
    }

    /// The next read. In a binary file every read it asks for lies inside
    /// the data, and it says `Truncated` where the next one would not.
    pub fn next_read(&self, header: &PlyHeader, data_len: usize) -> (r: DataRead)
        requires
            self.wf(header@.2),
        ensures
            r == self.read_at(header.ascii, header@.2, data_len as nat),
            !header.ascii ==> match r {
                DataRead::Length { offset, length_type, .. } => offset + ply_type_size(length_type)
                    <= data_len,
                DataRead::Value { offset, ptype, .. } => offset + ply_type_size(ptype) <= data_len,
                _ => true,
            },
    {
        if self.element >= header.elements.len() {
            return DataRead::Finished;
        }
        let ghost es = header@.2;
        let el = &header.elements[self.element];
        let prop = &el.properties[self.property];
        proof {
            assert(es[self.element as int] == el@);
            assert(es[self.element as int].2[self.property as int] == prop@);
        }
        if prop.is_list && !self.in_list {
            let size = prop.length_type.size();
            if !header.ascii && (self.offset > data_len || size > data_len - self.offset) {
                DataRead::Truncated
            } else {
                DataRead::Length {
                    element: self.element,
                    instance: self.instance,
                    property: self.property,
                    length_type: prop.length_type,
                    offset: self.offset,
                }
            }
        } else {
            let size = prop.ptype.size();
            if !header.ascii && (self.offset > data_len || size > data_len - self.offset) {
                DataRead::Truncated
            } else {
                let (index, len) = if self.in_list {
                    (self.list_done + 1, self.list_len)
                } else {
                    (0, 0)
                };
                DataRead::Value {
                    element: self.element,
                    instance: self.instance,
                    property: self.property,
                    index,
                    len,
                    ptype: prop.ptype,
                    offset: self.offset,
                }
            }
        }
    }

    /// Moves on once the list length `len` that `next_read` asked for has
    /// been read: into the list, or past it when it is empty. In a binary
    /// file the offset moves past the length.
    pub fn after_length(&mut self, header: &PlyHeader, data_len: usize, len: usize)
        requires
            old(self).wf(header@.2),
            old(self).read_at(header.ascii, header@.2, data_len as nat) is Length,
        ensures
            *final(self) == old(self).after_length_spec(
                header.ascii,
                header@.2,
                header@.2[old(self).element as int].2[old(self).property as int].3,
                len,
            ),
            final(self).wf(header@.2),
            !header.ascii ==> final(self).offset == old(self).offset + ply_type_size(
                header@.2[old(self).element as int].2[old(self).property as int].3,
            ),
    {
        let ghost es = header@.2;
        let el = &header.elements[self.element];
        let prop = &el.properties[self.property];
        proof {
            assert(es[self.element as int] == el@);
            assert(es[self.element as int].2[self.property as int] == prop@);
        }
        if !header.ascii {
            self.offset = self.offset + prop.length_type.size();
        }
        if len == 0 {
            self.move_to_next_slot(header);
        } else {
            self.in_list = true;
            self.list_len = len;
            self.list_done = 0;
        }
    }

    /// Moves on once the value that `next_read` asked for has been read: to
    /// the next item of the list, or to the next slot. In a binary file the
    /// offset moves past the value.
    pub fn after_value(&mut self, header: &PlyHeader, data_len: usize)
        requires
            old(self).wf(header@.2),
            old(self).read_at(header.ascii, header@.2, data_len as nat) is Value,
        ensures
            *final(self) == old(self).after_value_spec(
                header.ascii,
                header@.2,
                header@.2[old(self).element as int].2[old(self).property as int].1,
            ),
            final(self).wf(header@.2),
            !header.ascii ==> final(self).offset == old(self).offset + ply_type_size(
                header@.2[old(self).element as int].2[old(self).property as int].1,
            ),
    {
        let ghost es = header@.2;
        let el = &header.elements[self.element];
        let prop = &el.properties[self.property];
        proof {
            assert(es[self.element as int] == el@);
            assert(es[self.element as int].2[self.property as int] == prop@);
        }
        if !header.ascii {
            self.offset = self.offset + prop.ptype.size();
        }
        if self.in_list && self.list_done + 1 < self.list_len {
            self.list_done = self.list_done + 1;
        } else {
            self.move_to_next_slot(header);
        }
    }

    /// Leaves the current slot for the next one, keeping the offset.
    fn move_to_next_slot(&mut self, header: &PlyHeader)
        requires
            old(self).element < header@.2.len(),
            is_slot(
                header@.2,
                old(self).element as nat,
                old(self).instance as nat,
                old(self).property as nat,
            ),
        ensures
            *final(self) == old(self).next_slot(header@.2, old(self).offset),
            final(self).wf(header@.2),
    {
        let ghost es = header@.2;
        let el = &header.elements[self.element];
        proof {
            assert(es[self.element as int] == el@);
            assert(es[self.element as int].2.len() == el.properties@.len());
            assert(self.property < el.properties.len());
        }
        let (e, i, p) = settle_exec(header, self.element, self.instance, self.property + 1);
        proof {
            lemma_settle_skips_nothing(
                header@.2,
                self.element as nat,
                self.instance as nat,
                self.property as nat + 1,
            );
        }
        self.element = e;
        self.instance = i;
        self.property = p;
        self.in_list = false;
        self.list_len = 0;
        self.list_done = 0;
    }
}

/// `settle` on the elements of a header.
fn settle_exec(header: &PlyHeader, e: usize, i: usize, p: usize) -> (r: (usize, usize, usize))
    requires
        e <= header@.2.len(),
    ensures
        (r.0 as nat, r.1 as nat, r.2 as nat) == settle(header@.2, e as nat, i as nat, p as nat),
{
    let ghost es = header@.2;
    let ghost target = settle(es, e as nat, i as nat, p as nat);
    let mut ce = e;
    let mut ci = i;
    let mut cp = p;
    while ce < header.elements.len()
        invariant
            es == header@.2,
            es.len() == header.elements@.len(),
            ce <= es.len(),
            target == settle(es, e as nat, i as nat, p as nat),
            settle(es, ce as nat, ci as nat, cp as nat) == target,
        decreases es.len() - ce, (if ce < es.len() { es[ce as int].1 - ci } else { 0int }),
    {
        let el = &header.elements[ce];
        proof {
            assert(es[ce as int] == el@);
        }
        if ci >= el.count {
            ce = ce + 1;
            ci = 0;
            cp = 0;
        } else if el.properties.len() == 0 {
            proof {
                lemma_settle_no_properties(es, ce as nat, ci as nat, cp as nat);
            }
            ce = ce + 1;
            ci = 0;
            cp = 0;
        } else if cp >= el.properties.len() {
            ci = ci + 1;
            cp = 0;
        } else {
            proof {
                assert(es[ce as int].2.len() == el.properties@.len());
                assert(settle(es, ce as nat, ci as nat, cp as nat) == (ce as nat, ci as nat, cp as nat));
            }
            return (ce, ci, cp);
        }
    }
    (ce, 0, 0)
}

} // verus!
