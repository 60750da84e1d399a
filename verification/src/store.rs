//! [`Store`]: the key-value store, keyed by strings, and its serialisation.
//!
//! A serialised store is the eight bytes `SOURISDB`, a byte holding whether a huffman tree was
//! used (top bit) and the compression (low bits), and a compressed blob. The blob holds the
//! huffman tree, if any, built from all the text of the store, and then the store as a
//! dictionary value whose strings are coded with that tree.
use vstd::prelude::*;
use crate::types::binary::{
    binary_decoded,
    compression_byte,
    lemma_binary_roundtrip,
    lemma_vanilla_roundtrip,
    smallest,
    vanilla,
    BinaryCompression,
    BinaryData,
    BinarySerError,
};
use crate::types::binary::huffman::{huffman_output, huffman_readable, readable};
use crate::types::binary::lz::{append, lz4_compressed, lz4_decompressed, lz_encoded};
use crate::types::binary::rle::rle_encoded;
use crate::types::integer::{decoding, Integer, IntegerSerError, SignedState};
use vstd::arithmetic::mul::lemma_mul_inequality;
use crate::utilities::cursor::Cursor;
use crate::utilities::huffman::{
    chars_of,
    lemma_node_roundtrip,
    node_bytes,
    parse_node,
    tree_facts,
    codes_of,
    lemma_codes_of_len,
    Huffman,
    HuffmanSerError,
    Node,
};
use crate::values::{
    dict_insert,
    entries_view,
    entries_roundtrip,
    lemma_value_roundtrip,
    roundtrips,
    seq_roundtrips,
    entries_ok,
    entries_encodes,
    encodes,
    len_header,
    ser_ok,
    seq_ok,
    entries_decoded,
    len_decoded,
    leaf_decoded,
    root_of,
    key_position,
    keys_distinct,
    lemma_entries_view,
    lemma_entries_ok,
    lemma_seq_ok,
    lemma_key_position,
    skip_bytes,
    value_decoded,
    value_view,
    view_ty,
    insert_entry,
    dict_of,
    dicts_eq,
    kind_of,
    Value,
    ValueErrorKind,
    ValueSerError,
    ValueTy,
    ValueView,
};

verus! {

/// The store: values by string keys, no key twice.
#[derive(Debug)]
pub struct Store(Vec<(String, Value)>);

impl PartialEq for Store {
    fn eq(&self, other: &Self) -> (r: bool) {
        Value::dicts_equal(&self.0, &other.0)
    }
}

impl vstd::std_specs::cmp::PartialEqSpecImpl for Store {
    open spec fn obeys_eq_spec() -> bool {
        true
    }

    /// Two stores are equal as maps: see [`dicts_eq`].
    open spec fn eq_spec(&self, other: &Self) -> bool {
        dicts_eq(entries_view(self.entries()), entries_view(other.entries()))
    }
}

impl Eq for Store {}

/// An error when serialising or deserialising a [`Store`].
#[derive(Debug)]
pub enum StoreSerError {
    /// The bytes held a value other than a dictionary.
    ExpectedMap(ValueTy),
    /// The bytes did not start with `SOURISDB`.
    ExpectedMagicBytes,
    /// There were fewer bytes than needed.
    NotEnoughBytes,
    /// The dictionary could not be read.
    Value(ValueSerError),
    /// An integer could not be read.
    Integer(IntegerSerError),
    /// JSON could not be read or written.
    SerdeJson(serde_json::Error),
    /// The store could not be turned into JSON.
    UnableToConvertToJson,
    /// A compression byte that does not exist.
    UnsupportedCompression(u8),
    /// The huffman tree could not be read.
    Huffman(HuffmanSerError),
    /// The blob could not be read.
    Binary(BinarySerError),
}

/// What went wrong when reading a store, with the details that are plain values.
pub ghost enum StoreErrorKind {
    /// See [`StoreSerError::ExpectedMap`].
    ExpectedMap(ValueTy),
    /// See [`StoreSerError::ExpectedMagicBytes`].
    ExpectedMagicBytes,
    /// See [`StoreSerError::NotEnoughBytes`].
    NotEnoughBytes,
    /// See [`StoreSerError::Value`].
    Value(ValueErrorKind),
    /// See [`StoreSerError::Huffman`].
    Huffman(HuffmanSerError),
    /// [`StoreSerError::Binary`] holding [`BinarySerError::NoCompressionTypeFound`] with this
    /// byte.
    UnknownCompression(u8),
    /// Any other [`StoreSerError::Binary`].
    Binary,
    /// Any other error.
    Other,
}

/// What kind of error `e` is.
pub open spec fn store_kind_of(e: StoreSerError) -> StoreErrorKind {
    match e {
        StoreSerError::ExpectedMap(t) => StoreErrorKind::ExpectedMap(t),
        StoreSerError::ExpectedMagicBytes => StoreErrorKind::ExpectedMagicBytes,
        StoreSerError::NotEnoughBytes => StoreErrorKind::NotEnoughBytes,
        StoreSerError::Value(v) => StoreErrorKind::Value(kind_of(v)),
        StoreSerError::Huffman(h) => StoreErrorKind::Huffman(h),
        StoreSerError::Binary(BinarySerError::NoCompressionTypeFound(c)) => StoreErrorKind::UnknownCompression(c),
        StoreSerError::Binary(_) => StoreErrorKind::Binary,
        _ => StoreErrorKind::Other,
    }
}

/// The eight bytes every serialised store starts with: `SOURISDB` in ASCII.
pub open spec fn magic_bytes() -> Seq<u8> {
    seq![0x53u8, 0x4F, 0x55, 0x52, 0x49, 0x53, 0x44, 0x42]
}

/// The compression with a byte from `0` to `3`.
pub open spec fn compression_with(b: u8) -> BinaryCompression {
    if b == 0 {
        BinaryCompression::Nothing
    } else if b == 1 {
        BinaryCompression::RunLengthEncoding
    } else if b == 2 {
        BinaryCompression::LempelZiv
    } else {
        BinaryCompression::Huffman
    }
}

/// Whether the blob decoding of `s` with compression `ct` can go on (see
/// [`BinaryData::deser`]).
pub open spec fn blob_readable(ct: BinaryCompression, s: Seq<u8>) -> bool {
    &&& ct == BinaryCompression::LempelZiv ==> (decoding(s) matches Some((n, _)) ==> n
        <= isize::MAX)
    &&& ct == BinaryCompression::Huffman ==> huffman_readable(s)
}

/// The dictionary read from the decompressed payload `p`: after the huffman tree when
/// `coded`. `None` where decoding cannot go on.
pub open spec fn payload_decoded(p: Seq<u8>, coded: bool) -> Option<
    Result<Seq<(Seq<char>, ValueView)>, StoreErrorKind>,
> {
    let tree: Result<(Option<Node<char>>, nat), HuffmanSerError> = if coded {
        match parse_node::<char>(p) {
            Ok((root, k)) => Ok((Some(root), k)),
            Err(e) => Err(e),
        }
    } else {
        Ok((None, 0))
    };
    match tree {
        Err(e) => Some(Err(StoreErrorKind::Huffman(e))),
        Ok((h, k)) => match value_decoded(skip_bytes(p, k), h) {
            None => None,
            Some(Err(e)) => Some(Err(StoreErrorKind::Value(e))),
            Some(Ok((v, _))) => match v {
                ValueView::Dict(es) => Some(Ok(es)),
                _ => Some(Err(StoreErrorKind::ExpectedMap(view_ty(v)))),
            },
        },
    }
}

/// What [`Store::deser`] reads from `bytes`: the entries of the store, or the kind of error.
/// `None` where decoding cannot go on.
#[verifier::opaque]
pub open spec fn store_decoded(bytes: Seq<u8>) -> Option<
    Result<Seq<(Seq<char>, ValueView)>, StoreErrorKind>,
> {
    if bytes.len() < 8 {
        Some(Err(StoreErrorKind::NotEnoughBytes))
    } else if bytes.take(8) != magic_bytes() {
        Some(Err(StoreErrorKind::ExpectedMagicBytes))
    } else if bytes.len() < 9 {
        Some(Err(StoreErrorKind::NotEnoughBytes))
    } else {
        let c = bytes[8];
        let code = c % 128;
        let rest = skip_bytes(bytes, 9);
        if code > 3 {
            Some(Err(StoreErrorKind::UnknownCompression(code as u8)))
        } else if !blob_readable(compression_with(code), rest) {
            None
        } else {
            match binary_decoded(compression_with(code), rest) {
                None => Some(Err(StoreErrorKind::Binary)),
                Some((p, _)) => payload_decoded(p, c >= 128),
            }
        }
    }
}

/// Inserting entries in order never gives a repeated key.
pub proof fn lemma_dict_of_keys_distinct(raw: Seq<(Seq<char>, ValueView)>)
    ensures
        forall|i: int, j: int|
            0 <= i < j < dict_of(raw).len() ==> (#[trigger] dict_of(raw)[i]).0 != (
            #[trigger] dict_of(raw)[j]).0,
    decreases raw.len(),
{
    if raw.len() > 0 {
        let prev = dict_of(raw.drop_last());
        lemma_dict_of_keys_distinct(raw.drop_last());
        let (k, v) = raw.last();
        lemma_insert_keeps_keys_distinct(prev, k, v);
    }
}

/// Inserting into a dictionary without a repeated key gives one without a repeated key.
pub proof fn lemma_insert_keeps_keys_distinct(
    es: Seq<(Seq<char>, ValueView)>,
    k: Seq<char>,
    v: ValueView,
)
    requires
        forall|i: int, j: int| 0 <= i < j < es.len() ==> (#[trigger] es[i]).0 != (#[trigger] es[j]).0,
    ensures
        forall|i: int, j: int|
            0 <= i < j < insert_entry(es, k, v).len() ==> (#[trigger] insert_entry(es, k, v)[i]).0
                != (#[trigger] insert_entry(es, k, v)[j]).0,
{
    match key_position(es, k) {
        Some(p) => {
            lemma_key_position_found(es, k);
        },
        None => {
            lemma_key_position_absent(es, k);
        },
    }
}

/// The position [`key_position`] finds holds the key.
pub proof fn lemma_key_position_found(es: Seq<(Seq<char>, ValueView)>, k: Seq<char>)
    requires
        key_position(es, k) is Some,
    ensures
        key_position(es, k).unwrap() < es.len(),
        es[key_position(es, k).unwrap() as int].0 == k,
    decreases es.len(),
{
    if es[0].0 != k {
        lemma_key_position_found(es.drop_first(), k);
    }
}

/// When [`key_position`] finds nothing, no entry has the key.
pub proof fn lemma_key_position_absent(es: Seq<(Seq<char>, ValueView)>, k: Seq<char>)
    requires
        key_position(es, k) is None,
    ensures
        forall|i: int| 0 <= i < es.len() ==> (#[trigger] es[i]).0 != k,
    decreases es.len(),
{
    if es.len() > 0 {
        lemma_key_position_absent(es.drop_first(), k);
        assert forall|i: int| 0 <= i < es.len() implies (#[trigger] es[i]).0 != k by {
            if i > 0 {
                assert(es.drop_first()[i - 1] == es[i]);
            }
        }
    }
}

/// The text of a value, from which [`Store::ser`] builds its huffman tree: a string's, JSON
/// value's or time zone's characters; for an array the text of its values, and for a
/// dictionary each key followed by the text of its value, in order.
pub open spec fn value_text(v: Value) -> Seq<char>
    decreases v,
{
    match v {
        Value::String(s) => s@,
        Value::JSON(s) => s@,
        Value::Timezone(s) => s@,
        Value::Array(a) => values_text(a@),
        Value::Dict(d) => entries_text(d@),
        _ => Seq::empty(),
    }
}

/// The text of each value of a list, one after another.
pub open spec fn values_text(vs: Seq<Value>) -> Seq<char>
    decreases vs,
{
    if vs.len() == 0 {
        Seq::empty()
    } else {
        value_text(vs[0]) + values_text(vs.drop_first())
    }
}

/// Each key followed by the text of its value, entry after entry.
pub open spec fn entries_text(es: Seq<(String, Value)>) -> Seq<char>
    decreases es,
{
    if es.len() == 0 {
        Seq::empty()
    } else {
        es[0].0@ + value_text(es[0].1) + entries_text(es.drop_first())
    }
}

/// The text of a list with one more value at the end.
proof fn lemma_values_text_push(vs: Seq<Value>, v: Value)
    ensures
        values_text(vs.push(v)) == values_text(vs) + value_text(v),
    decreases vs.len(),
{
    if vs.len() == 0 {
        assert(vs.push(v).drop_first() =~= Seq::<Value>::empty());
        assert(values_text(vs.push(v).drop_first()) =~= Seq::<char>::empty());
        assert(vs.push(v)[0] == v);
        assert(values_text(vs.push(v)) =~= value_text(v));
    } else {
        lemma_values_text_push(vs.drop_first(), v);
        assert(vs.push(v).drop_first() =~= vs.drop_first().push(v));
        assert(values_text(vs.push(v)) =~= values_text(vs) + value_text(v));
    }
}

/// The text of a dictionary with one more entry at the end.
proof fn lemma_entries_text_push(es: Seq<(String, Value)>, e: (String, Value))
    ensures
        entries_text(es.push(e)) == entries_text(es) + e.0@ + value_text(e.1),
    decreases es.len(),
{
    if es.len() == 0 {
        assert(es.push(e).drop_first() =~= Seq::<(String, Value)>::empty());
        assert(entries_text(es.push(e).drop_first()) =~= Seq::<char>::empty());
        assert(es.push(e)[0] == e);
        assert(entries_text(es.push(e)) =~= e.0@ + value_text(e.1));
    } else {
        lemma_entries_text_push(es.drop_first(), e);
        assert(es.push(e).drop_first() =~= es.drop_first().push(e));
        assert(entries_text(es.push(e)) =~= entries_text(es) + e.0@ + value_text(e.1));
    }
}

/// Appends the characters of `s` to `text`.
fn push_chars(text: &mut Vec<char>, s: &str)
    ensures
        final(text)@ == old(text)@ + s@,
{
    let cs = chars_of(s);
    let mut i: usize = 0;
    while i < cs.len()
        invariant
            i <= cs@.len(),
            cs@ == s@,
            text@ == old(text)@ + cs@.take(i as int),
        decreases cs.len() - i,
    {
        text.push(cs[i]);
        assert(cs@.take(i as int + 1) =~= cs@.take(i as int).push(cs@[i as int]));
        i = i + 1;
    }
    assert(cs@.take(cs@.len() as int) =~= cs@);
}

/// Appends the text of `v` to `text`: see [`value_text`].
fn add_value_text(v: &Value, text: &mut Vec<char>)
    ensures
        final(text)@ == old(text)@ + value_text(*v),
    decreases v,
{
    match v {
        Value::String(s) => push_chars(text, s.as_str()),
        Value::JSON(s) => push_chars(text, s.as_str()),
        Value::Timezone(s) => push_chars(text, s.as_str()),
        Value::Array(a) => add_array_text(a, text),
        Value::Dict(d) => add_dict_text(d, text),
        _ => {
            assert(text@ =~= old(text)@ + value_text(*v));
        },
    }
}

/// Appends the text of each value of `a` to `text`.
fn add_array_text(a: &Vec<Value>, text: &mut Vec<char>)
    ensures
        final(text)@ == old(text)@ + values_text(a@),
    decreases a,
{
    let mut i: usize = 0;
    assert(values_text(a@.take(0)) =~= Seq::<char>::empty());
    assert(text@ =~= old(text)@ + values_text(a@.take(0)));
    while i < a.len()
        invariant
            i <= a@.len(),
            text@ == old(text)@ + values_text(a@.take(i as int)),
        decreases a.len() - i,
    {
        add_value_text(&a[i], text);
        proof {
            lemma_values_text_push(a@.take(i as int), a@[i as int]);
            assert(a@.take(i as int).push(a@[i as int]) =~= a@.take(i as int + 1));
        }
        assert(text@ =~= old(text)@ + values_text(a@.take(i as int + 1)));
        i = i + 1;
    }
    assert(a@.take(a@.len() as int) =~= a@);
}

/// Appends each key of `d` and the text of its value to `text`.
fn add_dict_text(d: &Vec<(String, Value)>, text: &mut Vec<char>)
    ensures
        final(text)@ == old(text)@ + entries_text(d@),
    decreases d,
{
    let mut i: usize = 0;
    assert(entries_text(d@.take(0)) =~= Seq::<char>::empty());
    assert(text@ =~= old(text)@ + entries_text(d@.take(0)));
    while i < d.len()
        invariant
            i <= d@.len(),
            text@ == old(text)@ + entries_text(d@.take(i as int)),
        decreases d.len() - i,
    {
        push_chars(text, d[i].0.as_str());
        add_value_text(&d[i].1, text);
        proof {
            lemma_entries_text_push(d@.take(i as int), d@[i as int]);
            assert(d@.take(i as int).push(d@[i as int]) =~= d@.take(i as int + 1));
        }
        assert(text@ =~= old(text)@ + entries_text(d@.take(i as int + 1)));
        i = i + 1;
    }
    assert(d@.take(d@.len() as int) =~= d@);
}

/// Every string of a value is no longer than its text, so a tree shallow enough for the whole
/// text codes each of them within a `usize`.
proof fn lemma_text_ok(v: Value, root: Node<char>)
    requires
        ser_ok(v, None),
        value_text(v).len() * root.depth() <= usize::MAX,
    ensures
        ser_ok(v, Some(root)),
    decreases v, 1nat,
{
    match v {
        Value::Array(a) => lemma_values_text_ok(a@, root),
        Value::Dict(d) => lemma_entries_text_ok(d@, root),
        _ => {},
    }
}

/// [`lemma_text_ok`] for each value of a list.
proof fn lemma_values_text_ok(vs: Seq<Value>, root: Node<char>)
    requires
        seq_ok(vs, None),
        values_text(vs).len() * root.depth() <= usize::MAX,
    ensures
        seq_ok(vs, Some(root)),
    decreases vs, 0nat,
{
    if vs.len() > 0 {
        let a = value_text(vs[0]).len() as int;
        let b = values_text(vs.drop_first()).len() as int;
        lemma_mul_inequality(a, a + b, root.depth() as int);
        lemma_mul_inequality(b, a + b, root.depth() as int);
        lemma_text_ok(vs[0], root);
        lemma_values_text_ok(vs.drop_first(), root);
    }
}

/// [`lemma_text_ok`] for each key and value of a dictionary.
proof fn lemma_entries_text_ok(es: Seq<(String, Value)>, root: Node<char>)
    requires
        entries_ok(es, None),
        entries_text(es).len() * root.depth() <= usize::MAX,
    ensures
        entries_ok(es, Some(root)),
    decreases es, 0nat,
{
    if es.len() > 0 {
        let k = es[0].0@.len() as int;
        let a = value_text(es[0].1).len() as int;
        let b = entries_text(es.drop_first()).len() as int;
        lemma_mul_inequality(k, k + a + b, root.depth() as int);
        lemma_mul_inequality(a, k + a + b, root.depth() as int);
        lemma_mul_inequality(b, k + a + b, root.depth() as int);
        lemma_text_ok(es[0].1, root);
        lemma_entries_text_ok(es.drop_first(), root);
    }
}

/// The huffman tree [`Store::ser`] may use for the text `t`: none for empty text; otherwise a
/// tree whose leaves are exactly the characters of `t`, kept only where it is a branch (a
/// single leaf would code every character with no bits at all) and the text coded with it is
/// bounded within a `usize` (its length times the tree's depth).
pub open spec fn coder_for(t: Seq<char>, h: Option<Node<char>>) -> bool {
    if t.len() == 0 {
        h is None
    } else {
        ||| h matches Some(root) && tree_facts(root, codes_of(t)) && root.depth() > 0 && t.len()
            * root.depth() <= usize::MAX
        ||| h is None && exists|root: Node<char>|
            #[trigger] tree_facts(root, codes_of(t)) && (root.depth() == 0 || t.len()
                * root.depth() > usize::MAX)
    }
}

/// The bytes of a huffman tree, or nothing.
pub open spec fn tree_bytes(h: Option<Node<char>>) -> Seq<u8> {
    match h {
        Some(root) => node_bytes(root),
        None => Seq::empty(),
    }
}

/// Whether `out` is a dictionary with the entries `es` serialised with the tree `h` (see
/// [`encodes`]).
pub open spec fn dict_encodes(es: Seq<(String, Value)>, h: Option<Node<char>>, out: Seq<u8>) -> bool {
    let hd = len_header(8, es.len());
    out.len() >= hd.len() && out.take(hd.len() as int) == hd && entries_encodes(
        es,
        h,
        out.skip(hd.len() as int),
    )
}

/// Whether `payload` is stored as the blob `blob` with compression `ct`: as
/// [`BinaryData::ser`] stores it, or, for a payload too long for that, uncompressed.
pub open spec fn blob_of(payload: Seq<u8>, ct: BinaryCompression, blob: Seq<u8>) -> bool {
    if payload.len() * 256 <= usize::MAX {
        &&& exists|hh: Seq<u8>| #[trigger]
            huffman_output(payload, hh) && (ct, blob) == smallest(
                vanilla(payload),
                rle_encoded(payload),
                lz_encoded(payload),
                hh,
            )
        &&& payload.len() > 0 ==> lz4_decompressed(lz4_compressed(payload), payload.len()) == Some(
            payload,
        )
        &&& payload.len() > 0 ==> lz4_compressed(payload).len() <= usize::MAX
    } else {
        ct == BinaryCompression::Nothing && blob == vanilla(payload)
    }
}

/// The byte after the magic bytes: the top bit for a huffman tree, then the compression.
pub open spec fn flag_byte(h: Option<Node<char>>, ct: BinaryCompression) -> u8 {
    if h is Some {
        (128 + compression_byte(ct)) as u8
    } else {
        compression_byte(ct)
    }
}

/// Whether `out` is a store with the entries `es` laid out with the tree `h`, the serialised
/// dictionary `map` and the blob `blob` with compression `ct`.
pub open spec fn stored_as(
    es: Seq<(String, Value)>,
    h: Option<Node<char>>,
    map: Seq<u8>,
    ct: BinaryCompression,
    blob: Seq<u8>,
    out: Seq<u8>,
) -> bool {
    &&& coder_for(entries_text(es), h)
    &&& dict_encodes(es, h, map)
    &&& (tree_bytes(h) + map).len() <= usize::MAX
    &&& blob_of(tree_bytes(h) + map, ct, blob)
    &&& out == magic_bytes() + seq![flag_byte(h, ct)] + blob
}

/// Whether `out` is what [`Store::ser`] may give for a store with the entries `es`.
pub open spec fn store_encodes(es: Seq<(String, Value)>, out: Seq<u8>) -> bool {
    exists|h: Option<Node<char>>, map: Seq<u8>, ct: BinaryCompression, blob: Seq<u8>|
        #[trigger] stored_as(es, h, map, ct, blob, out)
}

/// A value that comes back from its serialisation without a huffman tree comes back with a
/// tree that is a branch too.
proof fn lemma_roundtrips_coded(v: Value, root: Node<char>)
    requires
        roundtrips(v, None),
        root is Branch,
    ensures
        roundtrips(v, Some(root)),
    decreases v, 1nat,
{
    match v {
        Value::Array(a) => lemma_values_roundtrip_coded(a@, root),
        Value::Dict(d) => lemma_entries_roundtrip_coded(d@, root),
        _ => {},
    }
}

/// [`lemma_roundtrips_coded`] for each value of a list.
proof fn lemma_values_roundtrip_coded(vs: Seq<Value>, root: Node<char>)
    requires
        seq_roundtrips(vs, None),
        root is Branch,
    ensures
        seq_roundtrips(vs, Some(root)),
    decreases vs, 0nat,
{
    if vs.len() > 0 {
        lemma_roundtrips_coded(vs[0], root);
        lemma_values_roundtrip_coded(vs.drop_first(), root);
    }
}

/// [`lemma_roundtrips_coded`] for each key and value of a dictionary.
proof fn lemma_entries_roundtrip_coded(es: Seq<(String, Value)>, root: Node<char>)
    requires
        entries_roundtrip(es, None),
        root is Branch,
    ensures
        entries_roundtrip(es, Some(root)),
    decreases es, 0nat,
{
    if es.len() > 0 {
        lemma_roundtrips_coded(es[0].1, root);
        lemma_entries_roundtrip_coded(es.drop_first(), root);
    }
}

/// The payload of a serialised store is read back as its entries.
proof fn lemma_payload_roundtrip(d: Vec<(String, Value)>, h: Option<Node<char>>, map: Seq<u8>)
    requires
        keys_distinct(d@),
        entries_roundtrip(d@, None),
        coder_for(entries_text(d@), h),
        dict_encodes(d@, h, map),
    ensures
        payload_decoded(tree_bytes(h) + map, h is Some) == Some(
            Ok::<Seq<(Seq<char>, ValueView)>, StoreErrorKind>(entries_view(d@)),
        ),
{
    reveal(payload_decoded);
    let v = Value::Dict(d);
    assert(encodes(v, h, map));
    match h {
        Some(root) => {
            assert(root is Branch);
            lemma_entries_roundtrip_coded(d@, root);
        },
        None => {},
    }
    assert(roundtrips(v, h));
    lemma_value_roundtrip(v, h, map, Seq::empty());
    assert(map + Seq::<u8>::empty() =~= map);
    let payload = tree_bytes(h) + map;
    match h {
        Some(root) => {
            lemma_node_roundtrip::<char>(root, map);
            assert(skip_bytes(payload, node_bytes(root).len()) =~= map);
        },
        None => {
            assert(payload =~= map);
            assert(skip_bytes(payload, 0) =~= map);
        },
    }
}

/// The blob of a serialised store is read back as its payload, taking up all of it.
proof fn lemma_blob_roundtrip(payload: Seq<u8>, ct: BinaryCompression, blob: Seq<u8>)
    requires
        payload.len() <= usize::MAX,
        blob_of(payload, ct, blob),
    ensures
        blob_readable(ct, blob),
        binary_decoded(ct, blob) == Some((payload, blob.len())),
{
    assert(blob + Seq::<u8>::empty() =~= blob);
    if payload.len() * 256 <= usize::MAX {
        let hh = choose|hh: Seq<u8>| #[trigger]
            huffman_output(payload, hh) && (ct, blob) == smallest(
                vanilla(payload),
                rle_encoded(payload),
                lz_encoded(payload),
                hh,
            );
        lemma_binary_roundtrip(payload, hh, ct, blob, Seq::empty());
    } else {
        lemma_vanilla_roundtrip(payload, Seq::empty());
    }
}

/// A store serialised by [`Store::ser`] is read back by [`Store::deser`] with the same
/// entries in the same order, when each of its values comes back from its own serialisation
/// (see [`roundtrips`]).
pub proof fn lemma_store_roundtrip(s: Store, out: Seq<u8>)
    requires
        s.wf(),
        entries_roundtrip(s.entries(), None),
        store_encodes(s.entries(), out),
    ensures
        store_decoded(out) == Some(
            Ok::<Seq<(Seq<char>, ValueView)>, StoreErrorKind>(entries_view(s.entries())),
        ),
{
    let es = s.entries();
    let (h, map, ct, blob) = choose|h: Option<Node<char>>, map: Seq<u8>, ct: BinaryCompression, blob: Seq<u8>|
        #[trigger] stored_as(es, h, map, ct, blob, out);
    assert(es == s.0@);
    lemma_payload_roundtrip(s.0, h, map);
    lemma_blob_roundtrip(tree_bytes(h) + map, ct, blob);
    let c = flag_byte(h, ct);
    lemma_layout(out, h, ct, blob);
    lemma_store_decoded_unfold(out, ct, blob, c);
}

/// Where the parts of a serialised store stand.
proof fn lemma_layout(out: Seq<u8>, h: Option<Node<char>>, ct: BinaryCompression, blob: Seq<u8>)
    requires
        out == magic_bytes() + seq![flag_byte(h, ct)] + blob,
    ensures
        out.len() >= 9,
        out.take(8) == magic_bytes(),
        out[8] == flag_byte(h, ct),
        skip_bytes(out, 9) == blob,
        flag_byte(h, ct) % 128 == compression_byte(ct),
        flag_byte(h, ct) >= 128 <==> h is Some,
        compression_with(compression_byte(ct)) == ct,
{
    assert(out.take(8) =~= magic_bytes());
    assert(skip_bytes(out, 9) =~= blob);
}

/// How [`store_decoded`] reads bytes with the magic bytes, a flag byte `c` for the compression
/// `ct`, and a blob that reads back in full.
proof fn lemma_store_decoded_unfold(out: Seq<u8>, ct: BinaryCompression, blob: Seq<u8>, c: u8)
    requires
        out.len() >= 9,
        out.take(8) == magic_bytes(),
        out[8] == c,
        skip_bytes(out, 9) == blob,
        c % 128 == compression_byte(ct),
        compression_with(compression_byte(ct)) == ct,
        blob_readable(ct, blob),
        binary_decoded(ct, blob) is Some,
    ensures
        store_decoded(out) == payload_decoded(binary_decoded(ct, blob).unwrap().0, c >= 128),
{
    reveal(store_decoded);
}

/// Removing a key from a dictionary: the entry with that key goes, the others keep their
/// order; without such an entry nothing changes.
pub open spec fn remove_entry(es: Seq<(Seq<char>, ValueView)>, k: Seq<char>) -> Seq<
    (Seq<char>, ValueView),
> {
    match key_position(es, k) {
        Some(i) => es.remove(i as int),
        None => es,
    }
}

/// Each value of a list that [`ser_ok`] holds of without a tree makes the list one too.
proof fn lemma_seq_ok_of_each(vs: Seq<Value>)
    requires
        forall|i: int| 0 <= i < vs.len() ==> ser_ok(#[trigger] vs[i], None),
    ensures
        seq_ok(vs, None),
    decreases vs.len(),
{
    if vs.len() > 0 {
        assert forall|i: int| 0 <= i < vs.drop_first().len() implies ser_ok(
            #[trigger] vs.drop_first()[i],
            None,
        ) by {
            assert(vs.drop_first()[i] == vs[i + 1]);
        }
        lemma_seq_ok_of_each(vs.drop_first());
    }
}

/// Each value of a dictionary that [`ser_ok`] holds of without a tree makes the dictionary
/// one too.
proof fn lemma_entries_ok_of_each(es: Seq<(String, Value)>)
    requires
        forall|i: int| 0 <= i < es.len() ==> ser_ok((#[trigger] es[i]).1, None),
    ensures
        entries_ok(es, None),
    decreases es.len(),
{
    if es.len() > 0 {
        assert forall|i: int| 0 <= i < es.drop_first().len() implies ser_ok(
            (#[trigger] es.drop_first()[i]).1,
            None,
        ) by {
            assert(es.drop_first()[i] == es[i + 1]);
        }
        lemma_entries_ok_of_each(es.drop_first());
    }
}

/// Whether every blob in `v` is small enough for [`Value::ser`]: see [`ser_ok`].
pub fn value_fits(v: &Value) -> (b: bool)
    ensures
        b == ser_ok(*v, None),
    decreases v,
{
    match v {
        Value::Binary(d) => {
            let n = d.0.len();
            let b = n <= usize::MAX / 256;
            assert(b == (n * 256 <= usize::MAX)) by (nonlinear_arith)
                requires
                    b == (n <= usize::MAX / 256),
            ;
            b
        },
        Value::Array(a) => array_fits(a),
        Value::Dict(d) => dict_fits(d),
        _ => true,
    }
}

/// [`value_fits`] for each value of a list.
fn array_fits(a: &Vec<Value>) -> (b: bool)
    ensures
        b == seq_ok(a@, None),
    decreases a,
{
    let mut i: usize = 0;
    while i < a.len()
        invariant
            i <= a@.len(),
            forall|j: int| 0 <= j < i ==> ser_ok(#[trigger] a@[j], None),
        decreases a.len() - i,
    {
        if !value_fits(&a[i]) {
            proof {
                if seq_ok(a@, None) {
                    lemma_seq_ok(a@, None);
                }
            }
            return false;
        }
        i = i + 1;
    }
    proof {
        lemma_seq_ok_of_each(a@);
    }
    true
}

/// [`value_fits`] for each value of a dictionary.
fn dict_fits(d: &Vec<(String, Value)>) -> (b: bool)
    ensures
        b == entries_ok(d@, None),
    decreases d,
{
    let mut i: usize = 0;
    while i < d.len()
        invariant
            i <= d@.len(),
            forall|j: int| 0 <= j < i ==> ser_ok((#[trigger] d@[j]).1, None),
        decreases d.len() - i,
    {
        if !value_fits(&d[i].1) {
            proof {
                if entries_ok(d@, None) {
                    lemma_entries_ok(d@, None);
                }
            }
            return false;
        }
        i = i + 1;
    }
    proof {
        lemma_entries_ok_of_each(d@);
    }
    true
}

/// Whether no two entries of a dictionary view have the same key.
pub open spec fn view_keys_distinct(es: Seq<(Seq<char>, ValueView)>) -> bool {
    forall|i: int, j: int| 0 <= i < j < es.len() ==> (#[trigger] es[i]).0 != (#[trigger] es[j]).0
}

/// In a dictionary without a repeated key, the key at position `j` is found there.
proof fn lemma_position_of_distinct(es: Seq<(Seq<char>, ValueView)>, j: int)
    requires
        view_keys_distinct(es),
        0 <= j < es.len(),
    ensures
        key_position(es, es[j].0) == Some(j as nat),
{
    assert forall|m: int| 0 <= m < j implies es[m].0 != es[j].0 by {
        assert(es[m].0 != es[j].0);
    }
    crate::values::lemma_key_position(es, es[j].0, j as nat);
}

/// A key that no entry has is not found.
proof fn lemma_position_of_missing(es: Seq<(Seq<char>, ValueView)>, k: Seq<char>)
    requires
        forall|i: int| 0 <= i < es.len() ==> (#[trigger] es[i]).0 != k,
    ensures
        key_position(es, k) is None,
{
    crate::values::lemma_key_position(es, k, es.len());
}

/// After inserting `v` under `k` into a dictionary without a repeated key, `k` is found
/// holding `v`, and every other key is found where it was, holding what it held.
pub proof fn lemma_insert_then_get(es: Seq<(Seq<char>, ValueView)>, k: Seq<char>, v: ValueView)
    requires
        view_keys_distinct(es),
    ensures
        ({
            let after = insert_entry(es, k, v);
            &&& view_keys_distinct(after)
            &&& key_position(after, k) matches Some(j) && after[j as int] == (k, v)
            &&& forall|k2: Seq<char>|
                k2 != k ==> #[trigger] key_position(after, k2) == key_position(es, k2) && (
                key_position(es, k2) matches Some(j) ==> after[j as int] == es[j as int])
        }),
{
    let after = insert_entry(es, k, v);
    lemma_insert_keeps_keys_distinct(es, k, v);
    match key_position(es, k) {
        Some(p) => {
            lemma_key_position_found(es, k);
            lemma_position_of_distinct(after, p as int);
            assert forall|k2: Seq<char>| k2 != k implies #[trigger] key_position(after, k2)
                == key_position(es, k2) && (key_position(es, k2) matches Some(j) ==> after[j as int]
                == es[j as int]) by {
                match key_position(es, k2) {
                    Some(j) => {
                        lemma_key_position_found(es, k2);
                        lemma_position_of_distinct(after, j as int);
                    },
                    None => {
                        lemma_key_position_absent(es, k2);
                        lemma_position_of_missing(after, k2);
                    },
                }
            }
        },
        None => {
            lemma_position_of_distinct(after, es.len() as int);
            assert forall|k2: Seq<char>| k2 != k implies #[trigger] key_position(after, k2)
                == key_position(es, k2) && (key_position(es, k2) matches Some(j) ==> after[j as int]
                == es[j as int]) by {
                match key_position(es, k2) {
                    Some(j) => {
                        lemma_key_position_found(es, k2);
                        lemma_position_of_distinct(after, j as int);
                    },
                    None => {
                        lemma_key_position_absent(es, k2);
                        lemma_position_of_missing(after, k2);
                    },
                }
            }
        },
    }
}

/// After removing `k` from a dictionary without a repeated key, `k` is not found, and every
/// other key is found exactly when it was before, holding what it held.
pub proof fn lemma_remove_then_get(es: Seq<(Seq<char>, ValueView)>, k: Seq<char>)
    requires
        view_keys_distinct(es),
    ensures
        ({
            let after = remove_entry(es, k);
            &&& view_keys_distinct(after)
            &&& key_position(after, k) is None
            &&& forall|k2: Seq<char>|
                k2 != k ==> (#[trigger] key_position(after, k2) is Some <==> key_position(es, k2) is Some)
                    && (key_position(after, k2) matches Some(j2) ==> key_position(es, k2) matches Some(j)
                    && after[j2 as int] == es[j as int])
        }),
{
    let after = remove_entry(es, k);
    match key_position(es, k) {
        Some(p) => {
            lemma_key_position_found(es, k);
            assert forall|a: int| 0 <= a < after.len() implies #[trigger] after[a] == es[if a < p {
                a
            } else {
                a + 1
            }] by {}
            assert forall|a: int, b: int| 0 <= a < b < after.len() implies (#[trigger] after[a]).0
                != (#[trigger] after[b]).0 by {
                assert(after[a] == es[if a < p { a } else { a + 1 }]);
                assert(after[b] == es[if b < p { b } else { b + 1 }]);
            }
            assert forall|i: int| 0 <= i < after.len() implies (#[trigger] after[i]).0 != k by {
                assert(after[i] == es[if i < p { i } else { i + 1 }]);
            }
            lemma_position_of_missing(after, k);
            assert forall|k2: Seq<char>| k2 != k implies (#[trigger] key_position(after, k2) is Some
                <==> key_position(es, k2) is Some) && (key_position(after, k2) matches Some(j2)
                ==> key_position(es, k2) matches Some(j) && after[j2 as int] == es[j as int]) by {
                match key_position(es, k2) {
                    Some(j) => {
                        lemma_key_position_found(es, k2);
                        let j2 = if j < p { j as int } else { j - 1 };
                        assert(after[j2] == es[j as int]);
                        lemma_position_of_distinct(after, j2);
                    },
                    None => {
                        lemma_key_position_absent(es, k2);
                        assert forall|i: int| 0 <= i < after.len() implies (#[trigger] after[i]).0
                            != k2 by {
                            assert(after[i] == es[if i < p { i } else { i + 1 }]);
                        }
                        lemma_position_of_missing(after, k2);
                    },
                }
            }
        },
        None => {},
    }
}

/// Whether `m` is the magic bytes.
fn is_magic(m: &[u8]) -> (b: bool)
    requires
        m@.len() == 8,
    ensures
        b == (m@ == magic_bytes()),
{
    let b = m[0] == 0x53 && m[1] == 0x4F && m[2] == 0x55 && m[3] == 0x52 && m[4] == 0x49
        && m[5] == 0x53 && m[6] == 0x44 && m[7] == 0x42;
    proof {
        if b {
            assert(m@ =~= magic_bytes());
        }
    }
    b
}

/// A dictionary that [`value_decoded`] reads has no repeated key.
proof fn lemma_decoded_dict_distinct(s: Seq<u8>, h: Option<Node<char>>)
    requires
        value_decoded(s, h) matches Some(Ok((v, _))) && v is Dict,
    ensures
        ({
            let es = value_decoded(s, h).unwrap()->Ok_0.0->Dict_0;
            forall|i: int, j: int| 0 <= i < j < es.len() ==> (#[trigger] es[i]).0 != (#[trigger] es[j]).0
        }),
{
    let b = s[0];
    let t = s.subrange(1, s.len() as int);
    if b / 16 == 8 {
        match len_decoded(b, t) {
            Ok((n, c)) => match entries_decoded(skip_bytes(t, c), n, h) {
                Some(Ok((raw, _))) => lemma_dict_of_keys_distinct(raw),
                _ => {},
            },
            _ => {},
        }
    } else if !(b / 16 == 7 || b / 16 == 12 || b / 16 == 11) {
        reveal(leaf_decoded);
        reveal(crate::values::timestamp_decoded);
    }
}

impl Store {
    /// The entries, in order.
    pub closed spec fn entries(&self) -> Seq<(String, Value)> {
        self.0@
    }

    /// No key occurs twice.
    pub open spec fn wf(&self) -> bool {
        keys_distinct(self.entries())
    }

    /// An empty store.
    pub fn new() -> (s: Self)
        ensures
            s.wf(),
            s.entries().len() == 0,
    {
        Store(Vec::new())
    }

    /// The number of keys.
    pub fn len(&self) -> (n: usize)
        ensures
            n == self.entries().len(),
    {
        self.0.len()
    }

    /// Whether there are no keys.
    pub fn is_empty(&self) -> (b: bool)
        ensures
            b == (self.entries().len() == 0),
    {
        self.0.len() == 0
    }

    /// The entries, in order.
    pub fn as_entries(&self) -> (r: &Vec<(String, Value)>)
        ensures
            r@ == self.entries(),
    {
        &self.0
    }

    /// The entries, in order, taken out of the store.
    pub fn into_entries(self) -> (r: Vec<(String, Value)>)
        ensures
            r@ == self.entries(),
    {
        self.0
    }

    /// The value under `key`, if there is one.
    pub fn get(&self, key: &str) -> (r: Option<&Value>)
        ensures
            match key_position(entries_view(self.entries()), key@) {
                Some(i) => r == Some(&self.entries()[i as int].1),
                None => r is None,
            },
    {
        let ghost es = entries_view(self.0@);
        proof {
            lemma_entries_view(self.0@);
        }
        let owned: String = key.to_owned();
        let mut j: usize = 0;
        while j < self.0.len()
            invariant
                j <= self.0@.len(),
                owned@ == key@,
                es == entries_view(self.0@),
                es.len() == self.0@.len(),
                forall|i: int| #![trigger es[i]] 0 <= i < self.0@.len() ==> es[i] == (
                    self.0@[i].0@,
                    value_view(self.0@[i].1),
                ),
                forall|m: int| 0 <= m < j ==> es[m].0 != key@,
            decreases self.0.len() - j,
        {
            if self.0[j].0 == owned {
                proof {
                    assert(es[j as int].0 == key@);
                    lemma_key_position(es, key@, j as nat);
                }
                return Some(&self.0[j].1);
            }
            j = j + 1;
        }
        proof {
            lemma_key_position(es, key@, j as nat);
        }
        None
    }

    /// Puts `value` under `key`: a key already there has its value replaced where it stands;
    /// a new key goes at the end.
    pub fn insert(&mut self, key: String, value: Value)
        requires
            old(self).wf(),
        ensures
            final(self).wf(),
            entries_view(final(self).entries()) == insert_entry(
                entries_view(old(self).entries()),
                key@,
                value_view(value),
            ),
    {
        let ghost before = entries_view(self.0@);
        proof {
            lemma_entries_view(self.0@);
            assert forall|i: int, j: int| 0 <= i < j < before.len() implies (#[trigger] before[i]).0
                != (#[trigger] before[j]).0 by {
                assert(before[i].0 == self.0@[i].0@);
                assert(before[j].0 == self.0@[j].0@);
            }
        }
        dict_insert(&mut self.0, key, value);
        proof {
            lemma_insert_keeps_keys_distinct(before, key@, value_view(value));
            lemma_entries_view(self.0@);
            let after = entries_view(self.0@);
            assert forall|i: int, j: int| 0 <= i < j < self.0@.len() implies (
            #[trigger] self.0@[i]).0@ != (#[trigger] self.0@[j]).0@ by {
                assert(after[i].0 == self.0@[i].0@);
                assert(after[j].0 == self.0@[j].0@);
            }
        }
    }

    /// Serialises the store: the magic bytes `SOURISDB`, a byte for whether a huffman tree
    /// was used and which compression, and the compressed blob holding the tree (built from
    /// the text of the whole store, see [`entries_text`]) and the entries as a dictionary
    /// value whose strings are coded with it: see [`store_encodes`].
    pub fn ser(&self) -> (r: Result<Vec<u8>, StoreSerError>)
        requires
            entries_ok(self.entries(), None),
        ensures
            r matches Ok(out) && store_encodes(self.entries(), out@),
    {
        let ghost es = self.0@;
        let mut text: Vec<char> = Vec::new();
        add_dict_text(&self.0, &mut text);
        assert(text@ =~= entries_text(es));
        let t = text.len();
        let huffman: Option<Huffman<char>> = if t == 0 {
            None
        } else {
            match Huffman::new(text.as_slice()) {
                Some(h) => {
                    let d = h.depth();
                    if d == 0 {
                        assert(tree_facts(h.root(), codes_of(text@)) && h.root().depth() == 0);
                        None
                    } else if t <= usize::MAX / d {
                        assert(t * d <= usize::MAX) by (nonlinear_arith)
                            requires
                                t <= usize::MAX / d,
                        ;
                        Some(h)
                    } else {
                        assert(t * d > usize::MAX) by (nonlinear_arith)
                            requires
                                d > 0,
                                t > usize::MAX / d,
                        ;
                        assert(tree_facts(h.root(), codes_of(text@)) && text@.len() * h.root().depth()
                            > usize::MAX);
                        None
                    }
                },
                None => None,
            }
        };
        let coder: Option<&Huffman<char>> = match &huffman {
            Some(h) => Some(h),
            None => None,
        };
        let ghost hv = root_of(coder);
        proof {
            if let Some(root) = hv {
                lemma_entries_text_ok(es, root);
            }
        }
        let mut map = Value::ser_dict(&self.0, coder);
        let mut payload: Vec<u8> = match &huffman {
            Some(h) => h.ser(),
            None => Vec::new(),
        };
        let ghost tb = payload@;
        assert(tb == tree_bytes(hv));
        append(&mut payload, map.as_slice());
        let ghost pl = payload@;
        let (ct, blob) = if payload.len() <= usize::MAX / 256 {
            assert(payload@.len() * 256 <= usize::MAX) by (nonlinear_arith)
                requires
                    payload@.len() <= usize::MAX / 256,
            ;
            BinaryData(payload).ser()
        } else {
            let (_, mut bytes) = Integer::usize(payload.len()).ser();
            append(&mut bytes, payload.as_slice());
            (BinaryCompression::Nothing, bytes)
        };
        let flag: u8 = if huffman.is_some() {
            128 + ct.to_u8()
        } else {
            ct.to_u8()
        };
        let mut out: Vec<u8> = vec![0x53u8, 0x4F, 0x55, 0x52, 0x49, 0x53, 0x44, 0x42];
        out.push(flag);
        append(&mut out, blob.as_slice());
        proof {
            assert(out@ =~= magic_bytes() + seq![flag_byte(hv, ct)] + blob@);
            assert(stored_as(es, hv, map@, ct, blob@, out@));
        }
        Ok(out)
    }

    /// Deserialises a store written by [`Store::ser`]: see [`store_decoded`].
    ///
    /// # Errors
    /// - [`StoreSerError::NotEnoughBytes`] if the magic bytes or the byte after them are
    ///   missing;
    /// - [`StoreSerError::ExpectedMagicBytes`] if the bytes do not start with `SOURISDB`;
    /// - [`StoreSerError::Binary`] for an unknown compression or a blob that cannot be read;
    /// - [`StoreSerError::Huffman`] if the huffman tree cannot be read;
    /// - [`StoreSerError::Value`] if the dictionary cannot be read;
    /// - [`StoreSerError::ExpectedMap`] if the blob holds a value other than a dictionary.
    #[verifier::rlimit(40)]
    pub fn deser(bytes: &[u8]) -> (r: Result<Self, StoreSerError>)
        requires
            store_decoded(bytes@) is Some,
        ensures
            match store_decoded(bytes@).unwrap() {
                Ok(es) => r matches Ok(s) && s.wf() && entries_view(s.entries()) == es,
                Err(k) => r matches Err(e) && store_kind_of(e) == k,
            },
    {
        proof {
            reveal(payload_decoded);
            reveal(store_decoded);
        }
        let mut cursor = Cursor::new(bytes);
        let magic = match cursor.read(8) {
            Some(m) => m,
            None => return Err(StoreSerError::NotEnoughBytes),
        };
        if !is_magic(magic) {
            return Err(StoreSerError::ExpectedMagicBytes);
        }
        let compression: u8 = match cursor.next() {
            Some(c) => *c,
            None => return Err(StoreSerError::NotEnoughBytes),
        };
        assert(cursor.rest() =~= skip_bytes(bytes@, 9));
        let is_huffman_encoded = (compression & 0b1000_0000) != 0;
        let code: u8 = compression & 0b0111_1111;
        assert(code == compression % 128 && (is_huffman_encoded <==> compression >= 128))
            by (bit_vector)
            requires
                code == compression & 0b0111_1111,
                is_huffman_encoded == ((compression & 0b1000_0000) != 0),
        ;
        let compression_ty = match BinaryCompression::try_from_u8(code) {
            Ok(c) => c,
            Err(e) => {
                assert(bytes@[8] == compression && (compression % 128) as u8 == code);
                return Err(StoreSerError::Binary(e));
            },
        };
        assert(compression_ty == compression_with(code));
        let data = match BinaryData::deser(compression_ty, &mut cursor) {
            Ok(d) => d,
            Err(e) => return Err(StoreSerError::Binary(e)),
        };
        let ghost p = data.0@;
        assert(compression == bytes@[8]);
        assert(binary_decoded(compression_with(code), skip_bytes(bytes@, 9)) == Some((p, (cursor.head() - 9) as nat)));
        assert(store_decoded(bytes@) == payload_decoded(p, is_huffman_encoded));
        let mut inner = Cursor::new(data.0.as_slice());
        assert(inner.rest() =~= p);
        let huffman: Option<Huffman<char>> = if is_huffman_encoded {
            match Huffman::<char>::deser(&mut inner) {
                Ok(h) => Some(h),
                Err(e) => return Err(StoreSerError::Huffman(e)),
            }
        } else {
            None
        };
        let ghost k: nat = inner.head() as nat;
        assert(inner.rest() =~= skip_bytes(p, k));
        let mut values = Cursor::new(inner.peek_remaining());
        let coder: Option<&Huffman<char>> = match &huffman {
            Some(h) => Some(h),
            None => None,
        };
        let ghost s0 = values.rest();
        assert(s0 =~= skip_bytes(p, k));
        proof {
            if is_huffman_encoded {
                assert(parse_node::<char>(p) matches Ok((root, k2)) && k2 == k && root_of(coder) == Some(root));
            } else {
                assert(k == 0 && root_of(coder) is None);
            }
        }
        let val = match Value::deser(&mut values, coder) {
            Ok(v) => v,
            Err(e) => return Err(StoreSerError::Value(e)),
        };
        let ty = val.as_ty();
        match val {
            Value::Dict(d) => {
                proof {
                    lemma_decoded_dict_distinct(s0, root_of(coder));
                    lemma_entries_view(d@);
                    let es = entries_view(d@);
                    assert forall|i: int, j: int| 0 <= i < j < d@.len() implies (#[trigger] d@[i]).0@
                        != (#[trigger] d@[j]).0@ by {
                        assert(es[i].0 == d@[i].0@);
                        assert(es[j].0 == d@[j].0@);
                    }
                }
                Ok(Store(d))
            },
            _ => Err(StoreSerError::ExpectedMap(ty)),
        }
    }

    /// Whether [`Store::deser`] can read `bytes`, as it must before it is called (see
    /// [`store_decoded`]). It cannot where the blob is compressed with LZ4 and gives a length
    /// beyond `isize::MAX`, where a huffman-compressed blob holds a single-leaf tree followed
    /// by bits, or where the dictionary cannot be read (see [`Value::can_deser`]).
    #[verifier::rlimit(40)]
    pub fn can_deser(bytes: &[u8]) -> (b: bool)
        ensures
            b == (store_decoded(bytes@) is Some),
    {
        proof {
            reveal(payload_decoded);
            reveal(store_decoded);
        }
        let mut cursor = Cursor::new(bytes);
        let magic = match cursor.read(8) {
            Some(m) => m,
            None => return true,
        };
        if !is_magic(magic) {
            return true;
        }
        let compression: u8 = match cursor.next() {
            Some(c) => *c,
            None => return true,
        };
        assert(cursor.rest() =~= skip_bytes(bytes@, 9));
        let is_huffman_encoded = (compression & 0b1000_0000) != 0;
        let code: u8 = compression & 0b0111_1111;
        assert(code == compression % 128 && (is_huffman_encoded <==> compression >= 128))
            by (bit_vector)
            requires
                code == compression & 0b0111_1111,
                is_huffman_encoded == ((compression & 0b1000_0000) != 0),
        ;
        assert(bytes@[8] == compression);
        let compression_ty = match BinaryCompression::try_from_u8(code) {
            Ok(c) => c,
            Err(_) => return true,
        };
        assert(compression_ty == compression_with(code));
        let rest = cursor.peek_remaining();
        match compression_ty {
            BinaryCompression::LempelZiv => {
                let mut c2 = Cursor::new(rest);
                assert(c2.rest() =~= rest@);
                match Integer::deser(SignedState::Positive, &mut c2) {
                    Ok(i) => {
                        if i.try_into_isize().is_err() {
                            return false;
                        }
                    },
                    Err(_) => {},
                }
            },
            BinaryCompression::Huffman => {
                if !readable(rest) {
                    return false;
                }
            },
            _ => {},
        }
        let data = match BinaryData::deser(compression_ty, &mut cursor) {
            Ok(d) => d,
            Err(_) => return true,
        };
        let ghost p = data.0@;
        assert(binary_decoded(compression_with(code), skip_bytes(bytes@, 9)) == Some((p, (cursor.head() - 9) as nat)));
        assert(store_decoded(bytes@) == payload_decoded(p, is_huffman_encoded));
        let mut inner = Cursor::new(data.0.as_slice());
        assert(inner.rest() =~= p);
        if is_huffman_encoded {
            let h = match Huffman::<char>::deser(&mut inner) {
                Ok(h) => h,
                Err(_) => return true,
            };
            let ghost k: nat = inner.head() as nat;
            assert(inner.rest() =~= skip_bytes(p, k));
            Value::can_deser(inner.peek_remaining(), Some(&h))
        } else {
            assert(p =~= skip_bytes(p, 0));
            Value::can_deser(data.0.as_slice(), None)
        }
    }

    /// Whether there is a value under `key`.
    pub fn contains_key(&self, key: &str) -> (b: bool)
        ensures
            b == key_position(entries_view(self.entries()), key@) is Some,
    {
        self.get(key).is_some()
    }

    /// Removes the entry with `key` and gives back its value; the other entries keep their
    /// order. `None` if there is no such entry.
    pub fn remove(&mut self, key: &str) -> (r: Option<Value>)
        requires
            old(self).wf(),
        ensures
            final(self).wf(),
            entries_view(final(self).entries()) == remove_entry(entries_view(old(self).entries()), key@),
            match key_position(entries_view(old(self).entries()), key@) {
                Some(i) => r == Some(old(self).entries()[i as int].1),
                None => r is None,
            },
    {
        let ghost before = self.0@;
        let ghost es = entries_view(self.0@);
        proof {
            lemma_entries_view(self.0@);
        }
        let owned: String = key.to_owned();
        let mut j: usize = 0;
        while j < self.0.len()
            invariant
                j <= self.0@.len(),
                self.0@ == before,
                before == old(self).0@,
                keys_distinct(before),
                owned@ == key@,
                es == entries_view(before),
                es.len() == before.len(),
                forall|i: int| #![trigger es[i]] 0 <= i < before.len() ==> es[i] == (
                    before[i].0@,
                    value_view(before[i].1),
                ),
                forall|m: int| 0 <= m < j ==> es[m].0 != key@,
            decreases self.0.len() - j,
        {
            if self.0[j].0 == owned {
                proof {
                    assert(es[j as int].0 == key@);
                    lemma_key_position(es, key@, j as nat);
                }
                let (_, v) = self.0.remove(j);
                proof {
                    lemma_entries_view(self.0@);
                    let after = entries_view(self.0@);
                    assert forall|i: int| 0 <= i < after.len() implies after[i] == es.remove(
                        j as int,
                    )[i] by {
                        if i < j {
                            assert(self.0@[i] == before[i]);
                        } else {
                            assert(self.0@[i] == before[i + 1]);
                        }
                    }
                    assert(after =~= es.remove(j as int));
                    assert(key_position(es, key@) == Some(j as nat));
                    assert(remove_entry(es, key@) == es.remove(j as int));
                    assert forall|a: int, b: int| 0 <= a < b < self.0@.len() implies (
                    #[trigger] self.0@[a]).0@ != (#[trigger] self.0@[b]).0@ by {
                        let a0 = if a < j { a } else { a + 1 };
                        let b0 = if b < j { b } else { b + 1 };
                        assert(self.0@[a] == before[a0]);
                        assert(self.0@[b] == before[b0]);
                    }
                }
                return Some(v);
            }
            j = j + 1;
        }
        proof {
            lemma_key_position(es, key@, j as nat);
        }
        None
    }

    /// Removes every entry.
    pub fn clear(&mut self)
        ensures
            final(self).wf(),
            final(self).entries().len() == 0,
    {
        self.0.clear();
    }

    /// Whether every blob in the store is small enough for [`Store::ser`].
    pub fn can_ser(&self) -> (b: bool)
        ensures
            b == entries_ok(self.entries(), None),
    {
        dict_fits(&self.0)
    }

    /// The store of a dictionary value: its entries inserted in order, so that of two entries
    /// with the same key the later one's value is kept.
    ///
    /// # Errors
    /// [`StoreSerError::ExpectedMap`] for a value that is not a dictionary.
    pub fn try_from_value(value: Value) -> (r: Result<Self, StoreSerError>)
        ensures
            value is Dict ==> (r matches Ok(s) && s.wf() && entries_view(s.entries()) == dict_of(
                entries_view(value->Dict_0@),
            )),
            !(value is Dict) ==> (r matches Err(e) && store_kind_of(e) == StoreErrorKind::ExpectedMap(
                view_ty(value_view(value)),
            )),
    {
        let ty = value.as_ty();
        match value {
            Value::Dict(d) => {
                let ghost raw = entries_view(d@);
                proof {
                    lemma_entries_view(d@);
                }
                let mut s = Store::new();
                assert(entries_view(s.0@) =~= dict_of(raw.take(0)));
                for e in it: d.into_iter()
                    invariant
                        it.seq() == d@,
                        raw == entries_view(d@),
                        raw.len() == d@.len(),
                        forall|i: int| #![trigger raw[i]] 0 <= i < d@.len() ==> raw[i] == (
                            d@[i].0@,
                            value_view(d@[i].1),
                        ),
                        s.wf(),
                        entries_view(s.0@) == dict_of(raw.take(it.index() as int)),
                {
                    let ghost i = it.index() as int;
                    let (k, v) = e;
                    proof {
                        assert(raw[i] == (k@, value_view(v)));
                        assert(raw.take(i + 1).drop_last() =~= raw.take(i));
                    }
                    s.insert(k, v);
                }
                assert(raw.take(d@.len() as int) =~= raw);
                Ok(s)
            },
            _ => Err(StoreSerError::ExpectedMap(ty)),
        }
    }
}

} // verus!
