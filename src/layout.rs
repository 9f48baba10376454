//! Local message layouts, the table that holds them, and field offsets.
use vstd::prelude::*;

verus! {

/// Most `(field number, byte size)` entries a layout keeps for offset lookup.
pub const MAX_FIELDS: usize = 32;

/// Number of local message slots.
pub const LOCAL_SLOTS: usize = 16;

/// Size in bytes of the latitude and longitude fields.
pub const COORD_SIZE: u8 = 4;

/// The meaning of a local message definition.
pub ghost struct Layout {
    pub big_endian: bool,
    pub global_num: u16,
    /// The kept `(field number, byte size)` entries, in declaration order.
    pub fields: Seq<(u8, u8)>,
    /// Byte length of one record body: the sizes of all declared fields.
    pub data_len: nat,
}

/// Sum of the byte sizes of `f`.
pub open spec fn sum_sizes(f: Seq<(u8, u8)>) -> nat
    decreases f.len(),
{
    if f.len() == 0 {
        0
    } else {
        sum_sizes(f.drop_last()) + f.last().1 as nat
    }
}

/// The entries a layout keeps from the declared ones: the first
/// `MAX_FIELDS` of them.
pub open spec fn kept_fields(all: Seq<(u8, u8)>) -> Seq<(u8, u8)> {
    if all.len() <= MAX_FIELDS {
        all
    } else {
        all.take(MAX_FIELDS as int)
    }
}

/// The layout declared by a definition with the given byte order, global
/// message number and field entries (standard ones, then developer ones).
pub open spec fn layout_of(big: bool, global: u16, all: Seq<(u8, u8)>) -> Layout {
    Layout { big_endian: big, global_num: global, fields: kept_fields(all), data_len: sum_sizes(all) }
}

/// The layout of a slot that no definition has filled.
pub open spec fn empty_layout() -> Layout {
    Layout { big_endian: false, global_num: 0, fields: seq![], data_len: 0 }
}

/// The table before any definition: every slot empty.
pub open spec fn empty_table() -> Seq<Layout> {
    Seq::new(LOCAL_SLOTS as nat, |i: int| empty_layout())
}

/// Offset within a record body of the last kept field numbered `num` with
/// size `COORD_SIZE`; `None` when there is no such field.
pub open spec fn field_offset(f: Seq<(u8, u8)>, num: u8) -> Option<int>
    decreases f.len(),
{
    if f.len() == 0 {
        None
    } else if f.last() == (num, COORD_SIZE) {
        Some(sum_sizes(f.drop_last()) as int)
    } else {
        field_offset(f.drop_last(), num)
    }
}

/// An offset of the executable side read as a mathematical one.
pub open spec fn offset_view(o: Option<usize>) -> Option<int> {
    match o {
        Some(v) => Some(v as int),
        None => None,
    }
}

/// Every entry has a size of at most 255, so a sum is at most 255 per entry.
pub proof fn lemma_sum_sizes_bound(f: Seq<(u8, u8)>)
    ensures
        sum_sizes(f) <= 255 * f.len(),
    decreases f.len(),
{
    if f.len() > 0 {
        lemma_sum_sizes_bound(f.drop_last());
    }
}

/// A prefix never sums to more than the whole.
pub proof fn lemma_sum_sizes_prefix(f: Seq<(u8, u8)>, k: int)
    requires
        0 <= k <= f.len(),
    ensures
        sum_sizes(f.take(k)) <= sum_sizes(f),
    decreases f.len(),
{
    if k < f.len() {
        assert(f.drop_last().take(k) =~= f.take(k));
        lemma_sum_sizes_prefix(f.drop_last(), k);
    } else {
        assert(f.take(k) =~= f);
    }
}

/// A field found by `field_offset` lies wholly within the record body.
pub proof fn lemma_field_offset_in_body(f: Seq<(u8, u8)>, num: u8)
    ensures
        field_offset(f, num) matches Some(o) ==> 0 <= o && o + COORD_SIZE <= sum_sizes(f),
    decreases f.len(),
{
    if f.len() > 0 && f.last() != (num, COORD_SIZE) {
        lemma_field_offset_in_body(f.drop_last(), num);
    }
}

/// The kept entries sum to no more than the declared ones.
pub proof fn lemma_kept_fields_sum(all: Seq<(u8, u8)>)
    ensures
        sum_sizes(kept_fields(all)) <= sum_sizes(all),
        kept_fields(all).len() <= MAX_FIELDS,
{
    if all.len() > MAX_FIELDS {
        lemma_sum_sizes_prefix(all, MAX_FIELDS as int);
    }
}

/// A local message definition as the decoder stores it.
pub struct MsgDef {
    pub endian_big: bool,
    pub global_num: u16,
    /// Kept `(field number, byte size)` entries, developer fields included.
    pub fields: Vec<(u8, u8)>,
    /// Byte length of one record body.
    pub data_len: u32,
}

impl View for MsgDef {
    type V = Layout;

    open spec fn view(&self) -> Layout {
        Layout {
            big_endian: self.endian_big,
            global_num: self.global_num,
            fields: self.fields@,
            data_len: self.data_len as nat,
        }
    }
}

impl MsgDef {
    /// At most `MAX_FIELDS` kept entries, which lie within the record body.
    pub open spec fn wf(&self) -> bool {
        &&& self.fields@.len() <= MAX_FIELDS
        &&& sum_sizes(self.fields@) <= self.data_len
    }

    /// The definition of a slot that was never filled.
    pub fn empty() -> (r: MsgDef)
        ensures
            r@ == empty_layout(),
            r.wf(),
    {
        MsgDef { endian_big: false, global_num: 0, fields: Vec::new(), data_len: 0 }
    }

    /// Offsets within a record body of the latitude (field 0) and longitude
    /// (field 1) fields, each of size `COORD_SIZE`.
    pub fn coord_offsets(&self) -> (r: (Option<usize>, Option<usize>))
        requires
            self.wf(),
        ensures
            offset_view(r.0) == field_offset(self.fields@, 0),
            offset_view(r.1) == field_offset(self.fields@, 1),
    {
        let mut off: usize = 0;
        let mut lat_off: Option<usize> = None;
        let mut lon_off: Option<usize> = None;
        let n = self.fields.len();
        let mut i: usize = 0;
        proof {
            lemma_sum_sizes_bound(self.fields@);
        }
        while i < n
            invariant
                n == self.fields@.len(),
                n <= MAX_FIELDS,
                0 <= i <= n,
                off == sum_sizes(self.fields@.take(i as int)),
                offset_view(lat_off) == field_offset(self.fields@.take(i as int), 0),
                offset_view(lon_off) == field_offset(self.fields@.take(i as int), 1),
            decreases n - i,
        {
            let (fnum, sz) = self.fields[i];
            let ghost prev = self.fields@.take(i as int);
            let ghost next = self.fields@.take(i + 1);
            assert(next.drop_last() =~= prev);
            proof {
                lemma_sum_sizes_bound(next);
            }
            if fnum == 0 && sz == COORD_SIZE {
                lat_off = Some(off);
            }
            if fnum == 1 && sz == COORD_SIZE {
                lon_off = Some(off);
            }
            off = off + sz as usize;
            i = i + 1;
        }
        assert(self.fields@.take(n as int) =~= self.fields@);
        (lat_off, lon_off)
    }
}

/// The local message definitions, one per slot.
pub struct DefTable {
    slots: Vec<MsgDef>,
}

impl View for DefTable {
    type V = Seq<Layout>;

    closed spec fn view(&self) -> Seq<Layout> {
        self.slots@.map_values(|d: MsgDef| d@)
    }
}

impl DefTable {
    /// `LOCAL_SLOTS` slots, each well formed.
    pub closed spec fn wf(&self) -> bool {
        &&& self.slots@.len() == LOCAL_SLOTS
        &&& forall|i: int| 0 <= i < self.slots@.len() ==> #[trigger] self.slots@[i].wf()
    }

    /// A table whose slots are all empty.
    pub fn new() -> (r: DefTable)
        ensures
            r.wf(),
            r@ == empty_table(),
            r@.len() == LOCAL_SLOTS,
    {
        let mut slots: Vec<MsgDef> = Vec::new();
        let mut i: usize = 0;
        while i < LOCAL_SLOTS
            invariant
                0 <= i <= LOCAL_SLOTS,
                slots@.len() == i,
                forall|j: int| 0 <= j < i ==> (#[trigger] slots@[j]).wf() && slots@[j]@ == empty_layout(),
            decreases LOCAL_SLOTS - i,
        {
            slots.push(MsgDef::empty());
            i = i + 1;
        }
        let r = DefTable { slots };
        assert(r@.len() == LOCAL_SLOTS);
        assert forall|j: int| 0 <= j < LOCAL_SLOTS implies #[trigger] r@[j] == empty_table()[j] by {
            assert(r.slots@[j]@ == empty_layout());
        }
        assert(r@ =~= empty_table());
        r
    }

    /// Replaces the definition in slot `id`.
    pub fn define(&mut self, id: usize, def: MsgDef)
        requires
            old(self).wf(),
            id < LOCAL_SLOTS,
            def.wf(),
        ensures
            final(self).wf(),
            final(self)@ == old(self)@.update(id as int, def@),
            final(self)@.len() == LOCAL_SLOTS,
    {
        let ghost d = def@;
        self.slots.set(id, def);
        assert(self@ =~= old(self)@.update(id as int, d));
    }

    /// The definition in slot `id`.
    pub fn lookup(&self, id: usize) -> (r: &MsgDef)
        requires
            self.wf(),
            id < LOCAL_SLOTS,
        ensures
            r@ == self@[id as int],
            r.wf(),
            self@.len() == LOCAL_SLOTS,
    {
        &self.slots[id]
    }
}

} // verus!
