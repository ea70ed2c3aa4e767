use vstd::prelude::*;

verus! {

/// How the number behind a delayed field is to be understood.
#[derive(Clone, Copy, Debug, PartialEq, Eq, Structural)]
pub enum IdentifierMappingKind {
    Aggregator,
    Snapshot,
}

/// The integer width in which a delayed field is serialized.
#[derive(Clone, Copy, Debug, PartialEq, Eq, Structural)]
pub enum DelayedWidth {
    U64,
    U128,
}

/// One field of a resource's serialized form, in order.
///
/// A struct serializes as the concatenation of its fields, so a nested struct
/// is written here as the run of its own fields.
#[derive(Clone, Copy, Debug, PartialEq, Eq, Structural)]
pub enum FieldLayout {
    Bool,
    U8,
    U16,
    U32,
    U64,
    U128,
    U256,
    Address,
    /// A field whose number is exchanged with an identifier.
    Delayed(IdentifierMappingKind, DelayedWidth),
}

/// The layout of a resource value: where delayed fields stand in its bytes.
#[derive(Debug)]
pub struct MoveTypeLayout {
    pub fields: Vec<FieldLayout>,
}

/// The concrete number a delayed field resolves to.
#[derive(Clone, Copy, Debug, PartialEq, Eq, Structural)]
pub enum DelayedFieldValue {
    Aggregator(u128),
    Snapshot(u128),
}

impl MoveTypeLayout {
    pub open spec fn view(&self) -> Seq<FieldLayout> {
        self.fields@
    }

    pub fn new(fields: Vec<FieldLayout>) -> (r: Self)
        ensures
            r@ == fields@,
    {
        MoveTypeLayout { fields }
    }

    /// A copy of this layout.
    pub fn duplicate(&self) -> (r: Self)
        ensures
            r@ == self@,
    {
        let mut fields: Vec<FieldLayout> = Vec::new();
        let mut i: usize = 0;
        while i < self.fields.len()
            invariant
                i <= self.fields@.len(),
                fields@ == self.fields@.take(i as int),
            decreases self.fields@.len() - i,
        {
            fields.push(self.fields[i]);
            i = i + 1;
            proof {
                assert(fields@ =~= self.fields@.take(i as int));
            }
        }
        proof {
            assert(fields@ =~= self.fields@);
        }
        MoveTypeLayout { fields }
    }
}

impl DelayedFieldValue {
    pub open spec fn number(self) -> u128 {
        match self {
            DelayedFieldValue::Aggregator(n) => n,
            DelayedFieldValue::Snapshot(n) => n,
        }
    }

    /// The value that a literal `n` read under `kind` becomes.
    pub open spec fn spec_from_kind(kind: IdentifierMappingKind, n: u128) -> DelayedFieldValue {
        match kind {
            IdentifierMappingKind::Aggregator => DelayedFieldValue::Aggregator(n),
            IdentifierMappingKind::Snapshot => DelayedFieldValue::Snapshot(n),
        }
    }

    pub fn from_kind(kind: IdentifierMappingKind, n: u128) -> (r: DelayedFieldValue)
        ensures
            r == Self::spec_from_kind(kind, n),
    {
        match kind {
            IdentifierMappingKind::Aggregator => DelayedFieldValue::Aggregator(n),
            IdentifierMappingKind::Snapshot => DelayedFieldValue::Snapshot(n),
        }
    }

    pub fn get_number(&self) -> (r: u128)
        ensures
            r == self.number(),
    {
        match self {
            DelayedFieldValue::Aggregator(n) => *n,
            DelayedFieldValue::Snapshot(n) => *n,
        }
    }
}

pub open spec fn width_bytes(w: DelayedWidth) -> nat {
    match w {
        DelayedWidth::U64 => 8,
        DelayedWidth::U128 => 16,
    }
}

/// How many bytes a field takes.
pub open spec fn field_width(f: FieldLayout) -> nat {
    match f {
        FieldLayout::Bool => 1,
        FieldLayout::U8 => 1,
        FieldLayout::U16 => 2,
        FieldLayout::U32 => 4,
        FieldLayout::U64 => 8,
        FieldLayout::U128 => 16,
        FieldLayout::U256 => 32,
        FieldLayout::Address => 32,
        FieldLayout::Delayed(_, w) => width_bytes(w),
    }
}

pub fn field_width_of(f: FieldLayout) -> (r: usize)
    ensures
        r as nat == field_width(f),
        r <= 32,
{
    match f {
        FieldLayout::Bool => 1,
        FieldLayout::U8 => 1,
        FieldLayout::U16 => 2,
        FieldLayout::U32 => 4,
        FieldLayout::U64 => 8,
        FieldLayout::U128 => 16,
        FieldLayout::U256 => 32,
        FieldLayout::Address => 32,
        FieldLayout::Delayed(_, DelayedWidth::U64) => 8,
        FieldLayout::Delayed(_, DelayedWidth::U128) => 16,
    }
}

/// The field's bytes are well formed: the right length, and a bool is 0 or 1.
pub open spec fn chunk_ok(f: FieldLayout, c: Seq<u8>) -> bool {
    &&& c.len() == field_width(f)
    &&& (f is Bool ==> c[0] <= 1)
}

pub open spec fn is_delayed(f: FieldLayout) -> bool {
    f is Delayed
}

/// How many delayed fields a layout holds.
pub open spec fn delayed_count(l: Seq<FieldLayout>) -> nat
    decreases l.len(),
{
    if l.len() == 0 {
        0
    } else {
        delayed_count(l.drop_last()) + if is_delayed(l.last()) {
            1nat
        } else {
            0nat
        }
    }
}

/// The total width of a layout's fields.
pub open spec fn layout_width(l: Seq<FieldLayout>) -> nat
    decreases l.len(),
{
    if l.len() == 0 {
        0
    } else {
        layout_width(l.drop_last()) + field_width(l.last())
    }
}

/// A field-by-field rewrite of bytes laid out by `l`: each field's bytes are
/// checked, then handed to `f` with the number of delayed fields before it, and
/// the pieces `f` returns are joined. `None` when the bytes do not follow the
/// layout or `f` refuses a field.
pub open spec fn map_fields(
    l: Seq<FieldLayout>,
    b: Seq<u8>,
    f: spec_fn(FieldLayout, Seq<u8>, nat) -> Option<Seq<u8>>,
) -> Option<Seq<u8>>
    decreases l.len(),
{
    if l.len() == 0 {
        if b.len() == 0 {
            Some(seq![])
        } else {
            None
        }
    } else {
        let w = field_width(l.last());
        if b.len() < w {
            None
        } else {
            let cut = b.len() - w;
            let c = b.skip(cut);
            match map_fields(l.drop_last(), b.take(cut), f) {
                None => None,
                Some(p) => if !chunk_ok(l.last(), c) {
                    None
                } else {
                    match f(l.last(), c, delayed_count(l.drop_last())) {
                        None => None,
                        Some(q) => Some(p + q),
                    }
                },
            }
        }
    }
}

/// The bytes follow the layout.
pub open spec fn is_valid_encoding(l: Seq<FieldLayout>, b: Seq<u8>) -> bool {
    map_fields(l, b, |f: FieldLayout, c: Seq<u8>, k: nat| Some(c)) is Some
}

pub proof fn lemma_layout_width_step(l: Seq<FieldLayout>, i: int)
    requires
        0 <= i < l.len(),
    ensures
        layout_width(l.take(i + 1)) == layout_width(l.take(i)) + field_width(l[i]),
        delayed_count(l.take(i + 1)) == delayed_count(l.take(i)) + if is_delayed(l[i]) {
            1nat
        } else {
            0nat
        },
{
    assert(l.take(i + 1).drop_last() =~= l.take(i));
}

/// Unfolds `map_fields` on a prefix of the layout by one field.
pub proof fn lemma_map_fields_step(
    l: Seq<FieldLayout>,
    b: Seq<u8>,
    f: spec_fn(FieldLayout, Seq<u8>, nat) -> Option<Seq<u8>>,
    i: int,
    off: int,
)
    requires
        0 <= i < l.len(),
        off == layout_width(l.take(i)),
        off + field_width(l[i]) <= b.len(),
    ensures
        map_fields(l.take(i + 1), b.take(off + field_width(l[i])), f) == match map_fields(
            l.take(i),
            b.take(off),
            f,
        ) {
            None => None,
            Some(p) => if !chunk_ok(l[i], b.subrange(off, off + field_width(l[i]))) {
                None
            } else {
                match f(l[i], b.subrange(off, off + field_width(l[i])), delayed_count(l.take(i))) {
                    None => None,
                    Some(q) => Some(p + q),
                }
            },
        },
{
    let w = field_width(l[i]);
    let lp = l.take(i + 1);
    let bp = b.take(off + w);
    assert(lp.drop_last() =~= l.take(i));
    assert(lp.last() == l[i]);
    assert(bp.take(off) =~= b.take(off));
    assert(bp.skip(off) =~= b.subrange(off, off + w));
}

/// A successful rewrite reads exactly the layout's width.
pub proof fn lemma_map_fields_len(
    l: Seq<FieldLayout>,
    b: Seq<u8>,
    f: spec_fn(FieldLayout, Seq<u8>, nat) -> Option<Seq<u8>>,
)
    requires
        map_fields(l, b, f) is Some,
    ensures
        b.len() == layout_width(l),
    decreases l.len(),
{
    if l.len() > 0 {
        let cut = b.len() - field_width(l.last());
        lemma_map_fields_len(l.drop_last(), b.take(cut), f);
    }
}

/// A successful rewrite succeeds on every prefix of the layout.
pub proof fn lemma_map_fields_prefix(
    l: Seq<FieldLayout>,
    b: Seq<u8>,
    f: spec_fn(FieldLayout, Seq<u8>, nat) -> Option<Seq<u8>>,
    i: int,
)
    requires
        map_fields(l, b, f) is Some,
        0 <= i <= l.len(),
    ensures
        map_fields(l.take(i), b.take(layout_width(l.take(i)) as int), f) is Some,
        layout_width(l.take(i)) <= b.len(),
    decreases l.len(),
{
    lemma_map_fields_len(l, b, f);
    if i == l.len() {
        assert(l.take(i) =~= l);
        assert(b.take(b.len() as int) =~= b);
    } else {
        let cut = b.len() - field_width(l.last());
        let ld = l.drop_last();
        lemma_map_fields_len(ld, b.take(cut), f);
        lemma_map_fields_prefix(ld, b.take(cut), f, i);
        assert(ld.take(i) =~= l.take(i));
        assert(b.take(cut).take(layout_width(l.take(i)) as int) =~= b.take(
            layout_width(l.take(i)) as int,
        ));
    }
}

/// Where the rewrite of a prefix fails, the whole rewrite fails.
pub proof fn lemma_map_fields_prefix_none(
    l: Seq<FieldLayout>,
    b: Seq<u8>,
    f: spec_fn(FieldLayout, Seq<u8>, nat) -> Option<Seq<u8>>,
    i: int,
)
    requires
        0 <= i <= l.len(),
        layout_width(l.take(i)) > b.len() || map_fields(
            l.take(i),
            b.take(layout_width(l.take(i)) as int),
            f,
        ) is None,
    ensures
        map_fields(l, b, f) is None,
{
    if map_fields(l, b, f) is Some {
        lemma_map_fields_prefix(l, b, f, i);
    }
}

} // verus!
