//! The weights of the model: which tensors there are, and whether a file has
//! them in the form that the device takes.

use crate::audio::spelled;
use crate::runtime::{kind_of_layer, layer_kind, LayerKind};
use crate::text::{decimal, decimal_denotes, is_digit, push_decimal, quoted, str_eq};
use safetensors::SafeTensors;
use vstd::prelude::*;
use vstd::string::*;

verus! {

/// The tensors of a weights file.
#[verifier::external_type_specification]
#[verifier::external_body]
pub struct ExSafeTensors<'data>(SafeTensors<'data>);

/// What a tensor is: the name of its element type, its shape and its bytes.
pub struct TensorText {
    pub dtype: Seq<char>,
    pub shape: Seq<usize>,
    pub data: Seq<u8>,
}

/// The tensors of a weights file, by name.
pub uninterp spec fn tensors_in(tensors: SafeTensors<'_>) -> Map<Seq<char>, TensorText>;

/// A file of these bytes may be read as these tensors, or be refused with this
/// message.
pub uninterp spec fn may_parse(
    bytes: Seq<u8>,
    outcome: Result<Map<Seq<char>, TensorText>, Seq<char>>,
) -> bool;

/// A tensor of a weights file.
#[derive(Debug)]
pub struct Tensor<'data> {
    pub dtype: String,
    pub shape: Vec<usize>,
    pub data: &'data [u8],
}

impl<'data> View for Tensor<'data> {
    type V = TensorText;

    open spec fn view(&self) -> TensorText {
        TensorText { dtype: self.dtype@, shape: self.shape@, data: self.data@ }
    }
}

/// Where a place in JSON text stands: outside the quoted texts, in one, or in one
/// behind a backslash.
#[derive(Clone, Copy, Debug, PartialEq, Eq, Structural)]
pub enum Place {
    Outside,
    Quoted,
    Escaped,
}

/// Where one stands behind a byte.
pub open spec fn behind(place: Place, byte: u8) -> Place {
    match place {
        Place::Outside => if byte == 0x22 {
            Place::Quoted
        } else {
            Place::Outside
        },
        Place::Quoted => if byte == 0x22 {
            Place::Outside
        } else if byte == 0x5c {
            Place::Escaped
        } else {
            Place::Quoted
        },
        Place::Escaped => Place::Quoted,
    }
}

/// Where one stands at the end of a text.
pub open spec fn place_after(text: Seq<u8>) -> Place
    decreases text.len(),
{
    if text.len() == 0 {
        Place::Outside
    } else {
        behind(place_after(text.drop_last()), text.last())
    }
}

/// There is a digit here, outside the quoted texts.
pub open spec fn digit_at(text: Seq<u8>, i: int) -> bool {
    &&& 0 <= i < text.len()
    &&& 0x30 <= text[i] <= 0x39
    &&& place_after(text.take(i)) == Place::Outside
}

/// A run of digits outside the quoted texts goes from `from` up to `to`.
pub open spec fn run_of_digits(text: Seq<u8>, from: int, to: int) -> bool {
    &&& 0 <= from < to
    &&& forall|i: int| from <= i < to ==> digit_at(text, i)
    &&& !digit_at(text, from - 1)
    &&& !digit_at(text, to)
}

/// The number that digits denote.
pub open spec fn number_of(digits: Seq<u8>) -> nat
    decreases digits.len(),
{
    if digits.len() == 0 {
        0
    } else {
        (10 * number_of(digits.drop_last()) + digits.last() - 0x30) as nat
    }
}

/// A number is no `usize`, or a length can be added to it.
pub open spec fn leaves_room(number: nat, length: nat) -> bool {
    number <= usize::MAX ==> number + length <= usize::MAX
}

/// To each number in a header a length can be added.
pub open spec fn header_leaves_room(header: Seq<u8>, length: nat) -> bool {
    forall|from: int, to: int| #[trigger]
        run_of_digits(header, from, to) ==> leaves_room(
            number_of(header.subrange(from, to)),
            length,
        )
}

/// The length of the header that the first eight bytes of a weights file
/// announce, the low byte first.
pub open spec fn header_length(bytes: Seq<u8>) -> nat {
    (bytes[0] + 0x100 * bytes[1] + 0x1_0000 * bytes[2] + 0x100_0000 * bytes[3] + 0x1_0000_0000
        * bytes[4] + 0x100_0000_0000 * bytes[5] + 0x1_0000_0000_0000 * bytes[6]
        + 0x100_0000_0000_0000 * bytes[7]) as nat
}

/// The header of a weights file, as far as the file holds it whole.
pub open spec fn header_of(bytes: Seq<u8>) -> Seq<u8> {
    if bytes.len() < 8 || 8 + header_length(bytes) > bytes.len() {
        seq![]
    } else {
        bytes.subrange(8, 8 + header_length(bytes) as int)
    }
}

/// No number in the header of a weights file is so great that it overflows once
/// the length of the file is added.
pub open spec fn numbers_leave_room(bytes: Seq<u8>) -> bool {
    header_leaves_room(header_of(bytes), bytes.len())
}

/// The number that digits denote with one more digit.
fn with_digit(number: Option<usize>, digit: u8, Ghost(before): Ghost<Seq<u8>>) -> (r: Option<usize>)
    requires
        0x30 <= digit <= 0x39,
        number matches Some(n) ==> n == number_of(before),
        number is None ==> number_of(before) > usize::MAX,
    ensures
        r matches Some(n) ==> n == number_of(before.push(digit)),
        r is None ==> number_of(before.push(digit)) > usize::MAX,
{
    assert(before.push(digit).drop_last() =~= before);
    match number {
        None => None,
        Some(number) => match number.checked_mul(10) {
            None => None,
            Some(tens) => tens.checked_add((digit - 0x30) as usize),
        },
    }
}

/// Whether a length can be added to each number in a header.
fn has_room(header: &[u8], length: usize) -> (r: bool)
    ensures
        r == header_leaves_room(header@, length as nat),
{
    let ghost text = header@;
    let mut place = Place::Outside;
    let mut number: Option<usize> = Some(0);
    let ghost mut from: int = 0;
    let mut i: usize = 0;
    assert(text.take(0) =~= seq![]);
    assert(text.subrange(0, 0) =~= seq![]);
    while i < header.len()
        invariant
            text == header@,
            0 <= from <= i <= text.len(),
            place == place_after(text.take(i as int)),
            forall|j: int| from <= j < i ==> digit_at(text, j),
            !digit_at(text, from - 1),
            number matches Some(n) ==> n == number_of(text.subrange(from, i as int)),
            number is None ==> number_of(text.subrange(from, i as int)) > usize::MAX,
            forall|a: int, b: int|
                b < i && #[trigger] run_of_digits(text, a, b) ==> leaves_room(
                    number_of(text.subrange(a, b)),
                    length as nat,
                ),
        decreases text.len() - i,
    {
        let byte: u8 = header[i];
        assert(text.take(i + 1).drop_last() =~= text.take(i as int));
        if place == Place::Outside && 0x30 <= byte && byte <= 0x39 {
            number = with_digit(number, byte, Ghost(text.subrange(from, i as int)));
            assert(text.subrange(from, i as int).push(byte) =~= text.subrange(from, i + 1));
        } else {
            proof {
                run_is_the_only_one(text, from, i as int);
            }
            if number.is_some() && number.unwrap() > usize::MAX - length {
                proof {
                    if from == i {
                        assert(text.subrange(from, i as int) =~= seq![]);
                    }
                    assert(run_of_digits(text, from, i as int));
                }
                return false;
            }
            proof {
                from = i + 1;
            }
            assert(text.subrange(from, i + 1) =~= seq![]);
            number = Some(0);
        }
        place = match place {
            Place::Outside => if byte == 0x22 {
                Place::Quoted
            } else {
                Place::Outside
            },
            Place::Quoted => if byte == 0x22 {
                Place::Outside
            } else if byte == 0x5c {
                Place::Escaped
            } else {
                Place::Quoted
            },
            Place::Escaped => Place::Quoted,
        };
        i += 1;
    }
    proof {
        run_is_the_only_one(text, from, i as int);
        if from == i {
            assert(text.subrange(from, i as int) =~= seq![]);
        } else {
            assert(run_of_digits(text, from, i as int));
        }
        assert forall|a: int, b: int| #[trigger] run_of_digits(text, a, b) implies b <= i by {
            assert(digit_at(text, b - 1));
        }
    }
    match number {
        Some(number) => number <= usize::MAX - length,
        None => true,
    }
}

/// Digits that begin at `from` and go up to `to` are the one run that ends there.
proof fn run_is_the_only_one(text: Seq<u8>, from: int, to: int)
    requires
        0 <= from <= to,
        forall|i: int| from <= i < to ==> digit_at(text, i),
        !digit_at(text, from - 1),
    ensures
        forall|a: int| #[trigger] run_of_digits(text, a, to) ==> a == from,
{
    assert forall|a: int| #[trigger] run_of_digits(text, a, to) implies a == from by {
        if a < from {
            assert(digit_at(text, from - 1));
        } else if a > from {
            assert(digit_at(text, a - 1));
        }
    }
}

/// `SafeTensors::deserialize` reads the header of a weights file. What it makes
/// of the bytes, the name `may_parse` says; which of several faults it reports is
/// not fixed. It adds eight and the length of the header, which are no more than
/// the length of the file, to the offset at which the last tensor ends, unchecked.
/// That offset is a `usize` written in digits in the header, so the sum does not
/// overflow where the numbers there leave room.
#[verifier::external_body]
fn read_header<'data>(bytes: &'data [u8]) -> (r: Result<SafeTensors<'data>, String>)
    requires
        numbers_leave_room(bytes@),
    ensures
        match r {
            Ok(tensors) => may_parse(bytes@, Ok(tensors_in(tensors))),
            Err(message) => may_parse(bytes@, Err(message@)),
        },
{
    SafeTensors::deserialize(bytes).map_err(|fault| fault.to_string())
}

/// The length of the header that the first eight bytes announce.
fn read_header_length(bytes: &[u8]) -> (r: u64)
    requires
        bytes@.len() >= 8,
    ensures
        r == header_length(bytes@),
{
    bytes[0] as u64 + 0x100 * bytes[1] as u64 + 0x1_0000 * bytes[2] as u64 + 0x100_0000
        * bytes[3] as u64 + 0x1_0000_0000 * bytes[4] as u64 + 0x100_0000_0000 * bytes[5] as u64
        + 0x1_0000_0000_0000 * bytes[6] as u64 + 0x100_0000_0000_0000 * bytes[7] as u64
}

/// The tensors of a weights file. One whose header declares a tensor beyond the
/// length that a file can have is incomplete.
pub fn open_tensors<'data>(bytes: &'data [u8]) -> (r: Result<SafeTensors<'data>, String>)
    ensures
        match r {
            Ok(tensors) => numbers_leave_room(bytes@) && may_parse(bytes@, Ok(tensors_in(tensors))),
            Err(message) => if numbers_leave_room(bytes@) {
                may_parse(bytes@, Err(message@))
            } else {
                message@ == "MetadataIncompleteBuffer"@
            },
        },
{
    let whole: bool = bytes.len() >= 8 && read_header_length(bytes) <= (bytes.len() - 8) as u64;
    let header = if whole {
        let length: u64 = read_header_length(bytes);
        vstd::slice::slice_subrange(bytes, 8, 8 + length as usize)
    } else {
        vstd::slice::slice_subrange(bytes, 0, 0)
    };
    assert(header@ =~= header_of(bytes@));
    if has_room(header, bytes.len()) {
        read_header(bytes)
    } else {
        Err("MetadataIncompleteBuffer".to_owned())
    }
}

/// `SafeTensors::tensor` gives the tensor of a name, where there is one, and a
/// fault that quotes the name where there is none. The element type is given by
/// its name.
#[verifier::external_body]
pub(crate) fn find_tensor<'data>(tensors: &SafeTensors<'data>, name: &str) -> (r: Result<
    Tensor<'data>,
    String,
>)
    ensures
        match r {
            Ok(tensor) => tensors_in(*tensors).contains_key(name@) && tensors_in(*tensors)[name@]
                == tensor@,
            Err(message) => !tensors_in(*tensors).contains_key(name@) && message@
                == "TensorNotFound("@ + quoted(name@) + ")"@,
        },
{
    let view = tensors.tensor(name).map_err(|fault| fault.to_string())?;
    let dtype = format!("{:?}", view.dtype());
    Ok(Tensor { dtype, shape: view.shape().to_vec(), data: view.data() })
}

/// Numbers in square brackets, with commas between them.
pub open spec fn list_text(numbers: Seq<usize>) -> Seq<char> {
    "["@ + list_items(numbers) + "]"@
}

/// Numbers with commas between them.
pub open spec fn list_items(numbers: Seq<usize>) -> Seq<char>
    decreases numbers.len(),
{
    if numbers.len() == 0 {
        seq![]
    } else if numbers.len() == 1 {
        decimal(numbers[0] as nat)
    } else {
        list_items(numbers.drop_last()) + ", "@ + decimal(numbers.last() as nat)
    }
}

fn push_list(out: &mut String, numbers: &Vec<usize>)
    ensures
        final(out)@ == old(out)@ + list_text(numbers@),
{
    let ghost before = out@;
    out.append("[");
    let mut i: usize = 0;
    assert(numbers@.take(0) =~= seq![]);
    assert(out@ =~= before + "["@ + list_items(numbers@.take(0)));
    while i < numbers.len()
        invariant
            i <= numbers@.len(),
            out@ == before + "["@ + list_items(numbers@.take(i as int)),
        decreases numbers@.len() - i,
    {
        assert(numbers@.take(i + 1).drop_last() == numbers@.take(i as int));
        if i > 0 {
            out.append(", ");
        }
        push_decimal(out, numbers[i] as u64);
        i += 1;
        assert(out@ =~= before + "["@ + list_items(numbers@.take(i as int)));
    }
    assert(numbers@.take(i as int) == numbers@);
    out.append("]");
    assert(out@ =~= before + list_text(numbers@));
}

/// What is said of a tensor that has another type or shape than is expected.
pub open spec fn mismatch(
    name: Seq<char>,
    tensor: TensorText,
    dtype: Seq<char>,
    shape: Seq<usize>,
) -> Seq<char> {
    name + " is "@ + tensor.dtype + " "@ + list_text(tensor.shape) + ", expected "@ + dtype + " "@
        + list_text(shape)
}

/// The bytes of a tensor that must have this type and shape, or what is wrong.
pub open spec fn typed_bytes(
    tensors: Map<Seq<char>, TensorText>,
    name: Seq<char>,
    dtype: Seq<char>,
    shape: Seq<usize>,
) -> Result<Seq<u8>, Seq<char>> {
    if !tensors.contains_key(name) {
        Err("TensorNotFound("@ + quoted(name) + ")"@)
    } else if tensors[name].dtype != dtype || tensors[name].shape != shape {
        Err(mismatch(name, tensors[name], dtype, shape))
    } else {
        Ok(tensors[name].data)
    }
}

/// What a call that may fail gave, in plain terms.
pub open spec fn bytes_outcome(r: Result<&[u8], String>) -> Result<Seq<u8>, Seq<char>> {
    match r {
        Ok(bytes) => Ok(bytes@),
        Err(message) => Err(message@),
    }
}

fn same_shape(a: &Vec<usize>, b: &Vec<usize>) -> (r: bool)
    ensures
        r == (a@ == b@),
{
    if a.len() != b.len() {
        return false;
    }
    let mut i: usize = 0;
    while i < a.len()
        invariant
            i <= a@.len(),
            a@.len() == b@.len(),
            forall|j: int| 0 <= j < i ==> a@[j] == b@[j],
        decreases a@.len() - i,
    {
        if a[i] != b[i] {
            return false;
        }
        i += 1;
    }
    assert(a@ =~= b@);
    true
}

fn expect_tensor<'data>(
    tensors: &SafeTensors<'data>,
    name: &str,
    dtype: &str,
    shape: Vec<usize>,
) -> (r: Result<&'data [u8], String>)
    ensures
        bytes_outcome(r) == typed_bytes(tensors_in(*tensors), name@, dtype@, shape@),
{
    let tensor = match find_tensor(tensors, name) {
        Ok(tensor) => tensor,
        Err(message) => return Err(message),
    };
    if !str_eq(tensor.dtype.as_str(), dtype) || !same_shape(&tensor.shape, &shape) {
        let mut message = name.to_owned();
        message.append(" is ");
        message.append(tensor.dtype.as_str());
        message.append(" ");
        push_list(&mut message, &tensor.shape);
        message.append(", expected ");
        message.append(dtype);
        message.append(" ");
        push_list(&mut message, &shape);
        return Err(message);
    }
    Ok(tensor.data)
}

/// The bytes of a column of `size` numbers in brain floating point.
pub fn bf16_column<'data>(tensors: &SafeTensors<'data>, name: &str, size: usize) -> (r: Result<
    &'data [u8],
    String,
>)
    ensures
        bytes_outcome(r) == typed_bytes(tensors_in(*tensors), name@, "BF16"@, seq![size, 1]),
{
    let shape: Vec<usize> = vec![size, 1];
    assert(shape@ =~= seq![size, 1]);
    expect_tensor(tensors, name, "BF16", shape)
}

/// The bytes of a matrix of four-bit numbers, two to a byte.
pub fn packed_f4<'data>(tensors: &SafeTensors<'data>, name: &str, rows: usize, cols: usize) -> (r:
    Result<&'data [u8], String>)
    ensures
        bytes_outcome(r) == typed_bytes(
            tensors_in(*tensors),
            name@,
            "U8"@,
            seq![rows, (cols / 2) as usize],
        ),
{
    let shape: Vec<usize> = vec![rows, cols / 2];
    assert(shape@ =~= seq![rows, (cols / 2) as usize]);
    expect_tensor(tensors, name, "U8", shape)
}

/// The bits of a single number in single precision, or what is wrong.
pub open spec fn scalar_bits(tensors: Map<Seq<char>, TensorText>, name: Seq<char>) -> Result<
    u32,
    Seq<char>,
> {
    if !tensors.contains_key(name) {
        Err("TensorNotFound("@ + quoted(name) + ")"@)
    } else {
        let tensor = tensors[name];
        if tensor.dtype != "F32"@ || tensor.data.len() != 4 {
            Err(name + " is "@ + tensor.dtype + ", not a scalar f32 tensor"@)
        } else {
            Ok(
                (tensor.data[0] + tensor.data[1] * 0x100 + tensor.data[2] * 0x1_0000
                    + tensor.data[3] * 0x100_0000) as u32,
            )
        }
    }
}

/// The bits of a single number in single precision.
pub fn read_f32(tensors: &SafeTensors<'_>, name: &str) -> (r: Result<u32, String>)
    ensures
        match r {
            Ok(bits) => scalar_bits(tensors_in(*tensors), name@) == Ok::<_, Seq<char>>(bits),
            Err(message) => scalar_bits(tensors_in(*tensors), name@) == Err::<u32, _>(message@),
        },
{
    let tensor = match find_tensor(tensors, name) {
        Ok(tensor) => tensor,
        Err(message) => return Err(message),
    };
    if !str_eq(tensor.dtype.as_str(), "F32") || tensor.data.len() != 4 {
        let mut message = name.to_owned();
        message.append(" is ");
        message.append(tensor.dtype.as_str());
        message.append(", not a scalar f32 tensor");
        return Err(message);
    }
    let data = tensor.data;
    Ok(
        data[0] as u32 + data[1] as u32 * 0x100 + data[2] as u32 * 0x1_0000 + data[3] as u32
            * 0x100_0000,
    )
}

/// The bits are those of a number other than zero: neither infinite nor no
/// number at all.
pub open spec fn usable_scale(bits: u32) -> bool {
    0 < bits % 0x8000_0000 < 0x7f80_0000
}

/// Why a scale cannot be used.
#[derive(Debug)]
pub enum ScaleFault {
    /// It could not be read.
    Unread(String),
    /// It is zero, infinite or no number; these are its bits.
    Unusable(u32),
}

/// The bits of a global scale, which must have a reciprocal.
pub fn global_scale(tensors: &SafeTensors<'_>, name: &str) -> (r: Result<u32, ScaleFault>)
    ensures
        match scalar_bits(tensors_in(*tensors), name@) {
            Err(message) => r matches Err(ScaleFault::Unread(text)) && text@ == message,
            Ok(bits) => r == (if usable_scale(bits) {
                Ok::<_, ScaleFault>(bits)
            } else {
                Err(ScaleFault::Unusable(bits))
            }),
        },
{
    match read_f32(tensors, name) {
        Err(message) => Err(ScaleFault::Unread(message)),
        Ok(bits) => {
            let magnitude: u32 = bits % 0x8000_0000;
            if magnitude == 0 || magnitude >= 0x7f80_0000 {
                Err(ScaleFault::Unusable(bits))
            } else {
                Ok(bits)
            }
        },
    }
}

/// How a tensor is read.
#[derive(Clone, Copy, Debug, PartialEq, Eq, Structural)]
pub enum Reading {
    /// As it is.
    Plain,
    /// As a column of so many numbers.
    Column(usize),
    /// As a single number.
    Scalar,
    /// As a matrix of four-bit numbers, of so many rows and columns.
    Packed(usize, usize),
    /// As a scale, for its reciprocal.
    Scale,
}

/// The tensors of one projection of the feed-forward part: what their names end
/// with, and how they are read.
pub open spec fn mlp_part(name: Seq<char>, rows: usize, cols: usize) -> Seq<(Seq<char>, Reading)> {
    seq![
        ("mlp."@ + name + ".weight_packed"@, Reading::Packed(rows, cols)),
        ("mlp."@ + name + ".weight_scale"@, Reading::Plain),
        ("mlp."@ + name + ".weight_global_scale"@, Reading::Scale),
    ]
}

/// The tensors that every layer has, in the order in which they are read.
pub open spec fn common_parts() -> Seq<(Seq<char>, Reading)> {
    seq![
        ("pre_feedforward_layernorm.weight"@, Reading::Plain),
        ("post_feedforward_layernorm.weight"@, Reading::Plain),
        ("input_layernorm.weight"@, Reading::Plain),
    ] + mlp_part("up_proj"@, 15360, 3840) + mlp_part("gate_proj"@, 15360, 3840) + mlp_part(
        "down_proj"@,
        3840,
        15360,
    )
}

/// The tensors that a layer of a kind has besides, in the order in which they
/// are read. Only a sliding layer has values of its own.
pub open spec fn attention_parts(kind: LayerKind) -> Seq<(Seq<char>, Reading)> {
    match kind {
        LayerKind::Sliding => seq![
            ("self_attn.q_proj.weight"@, Reading::Plain),
            ("self_attn.k_proj.weight"@, Reading::Plain),
            ("self_attn.v_proj.weight"@, Reading::Plain),
            ("self_attn.q_proj.weight_scale"@, Reading::Column(4096)),
            ("self_attn.k_proj.weight_scale"@, Reading::Column(2048)),
            ("self_attn.v_proj.weight_scale"@, Reading::Column(2048)),
            ("self_attn.q_norm.weight"@, Reading::Plain),
            ("self_attn.k_norm.weight"@, Reading::Plain),
            ("post_attention_layernorm.weight"@, Reading::Plain),
            ("self_attn.o_proj.weight"@, Reading::Plain),
            ("self_attn.o_proj.weight_scale"@, Reading::Column(3840)),
            ("layer_scalar"@, Reading::Scalar),
        ],
        LayerKind::Full => seq![
            ("self_attn.q_proj.weight"@, Reading::Plain),
            ("self_attn.k_proj.weight"@, Reading::Plain),
            ("self_attn.q_proj.weight_scale"@, Reading::Column(8192)),
            ("self_attn.k_proj.weight_scale"@, Reading::Column(512)),
            ("self_attn.q_norm.weight"@, Reading::Plain),
            ("self_attn.k_norm.weight"@, Reading::Plain),
            ("post_attention_layernorm.weight"@, Reading::Plain),
            ("self_attn.o_proj.weight"@, Reading::Plain),
            ("self_attn.o_proj.weight_scale"@, Reading::Column(3840)),
            ("layer_scalar"@, Reading::Scalar),
        ],
    }
}

/// What the names of a layer's tensors begin with.
pub open spec fn layer_prefix(layer: nat) -> Seq<char> {
    "model.language_model.layers."@ + decimal(layer) + "."@
}

/// The tensors of a layer, in the order in which they are read.
pub open spec fn layer_parts(layer: nat) -> Seq<(Seq<char>, Reading)> {
    let parts = common_parts() + attention_parts(layer_kind(layer));
    Seq::new(parts.len(), |i: int| (layer_prefix(layer) + parts[i].0, parts[i].1))
}

/// The tensors of the embedders and of what comes before and after the layers,
/// in the order in which they are read.
pub open spec fn outer_parts() -> Seq<Seq<char>> {
    seq![
        "model.language_model.embed_tokens.weight"@,
        "model.language_model.norm.weight"@,
        "model.vision_embedder.pos_embedding"@,
        "model.vision_embedder.patch_ln1.weight"@,
        "model.vision_embedder.patch_ln1.bias"@,
        "model.vision_embedder.patch_dense.weight"@,
        "model.vision_embedder.patch_dense.bias"@,
        "model.vision_embedder.patch_ln2.weight"@,
        "model.vision_embedder.patch_ln2.bias"@,
        "model.vision_embedder.pos_norm.weight"@,
        "model.vision_embedder.pos_norm.bias"@,
        "model.embed_vision.embedding_projection.weight"@,
        "model.embed_audio.embedding_projection.weight"@,
    ]
}

/// A tensor that is to be read.
#[derive(Debug)]
pub struct Part {
    pub name: String,
    pub reading: Reading,
}

/// What parts say.
pub open spec fn part_texts(parts: Seq<Part>) -> Seq<(Seq<char>, Reading)> {
    Seq::new(parts.len(), |i: int| (parts[i].name@, parts[i].reading))
}

fn add_part(parts: &mut Vec<Part>, prefix: &str, name: &str, reading: Reading)
    ensures
        part_texts(final(parts)@) == part_texts(old(parts)@).push((prefix@ + name@, reading)),
{
    let ghost before = parts@;
    let mut full = prefix.to_owned();
    full.append(name);
    parts.push(Part { name: full, reading });
    assert(part_texts(parts@) =~= part_texts(before).push((prefix@ + name@, reading)));
}

/// `parts` with a prefix before each name.
spec fn prefixed(prefix: Seq<char>, parts: Seq<(Seq<char>, Reading)>) -> Seq<
    (Seq<char>, Reading),
> {
    Seq::new(parts.len(), |i: int| (prefix + parts[i].0, parts[i].1))
}

fn add_mlp(parts: &mut Vec<Part>, prefix: &str, name: &str, rows: usize, cols: usize)
    ensures
        part_texts(final(parts)@) == part_texts(old(parts)@) + prefixed(
            prefix@,
            mlp_part(name@, rows, cols),
        ),
{
    let ghost before = part_texts(parts@);
    let mut stem = "mlp.".to_owned();
    stem.append(name);
    let mut packed = stem.as_str().to_owned();
    packed.append(".weight_packed");
    add_part(parts, prefix, packed.as_str(), Reading::Packed(rows, cols));
    let mut scale = stem.as_str().to_owned();
    scale.append(".weight_scale");
    add_part(parts, prefix, scale.as_str(), Reading::Plain);
    let mut global = stem.as_str().to_owned();
    global.append(".weight_global_scale");
    add_part(parts, prefix, global.as_str(), Reading::Scale);
    assert(part_texts(parts@) =~= before + prefixed(prefix@, mlp_part(name@, rows, cols)));
}

fn add_attention(parts: &mut Vec<Part>, prefix: &str, kind: LayerKind)
    ensures
        part_texts(final(parts)@) == part_texts(old(parts)@) + prefixed(
            prefix@,
            attention_parts(kind),
        ),
{
    let ghost before = part_texts(parts@);
    add_part(parts, prefix, "self_attn.q_proj.weight", Reading::Plain);
    add_part(parts, prefix, "self_attn.k_proj.weight", Reading::Plain);
    match kind {
        LayerKind::Sliding => {
            add_part(parts, prefix, "self_attn.v_proj.weight", Reading::Plain);
            add_part(parts, prefix, "self_attn.q_proj.weight_scale", Reading::Column(4096));
            add_part(parts, prefix, "self_attn.k_proj.weight_scale", Reading::Column(2048));
            add_part(parts, prefix, "self_attn.v_proj.weight_scale", Reading::Column(2048));
        },
        LayerKind::Full => {
            add_part(parts, prefix, "self_attn.q_proj.weight_scale", Reading::Column(8192));
            add_part(parts, prefix, "self_attn.k_proj.weight_scale", Reading::Column(512));
        },
    }
    add_part(parts, prefix, "self_attn.q_norm.weight", Reading::Plain);
    add_part(parts, prefix, "self_attn.k_norm.weight", Reading::Plain);
    add_part(parts, prefix, "post_attention_layernorm.weight", Reading::Plain);
    add_part(parts, prefix, "self_attn.o_proj.weight", Reading::Plain);
    add_part(parts, prefix, "self_attn.o_proj.weight_scale", Reading::Column(3840));
    add_part(parts, prefix, "layer_scalar", Reading::Scalar);
    assert(part_texts(parts@) =~= before + prefixed(prefix@, attention_parts(kind)));
}

/// The tensors of a layer, in the order in which they are read.
pub fn layer_plan(layer: usize) -> (r: Vec<Part>)
    ensures
        part_texts(r@) == layer_parts(layer as nat),
{
    let mut prefix = "model.language_model.layers.".to_owned();
    push_decimal(&mut prefix, layer as u64);
    prefix.append(".");
    let prefix = prefix.as_str();
    let mut parts: Vec<Part> = Vec::new();
    add_part(&mut parts, prefix, "pre_feedforward_layernorm.weight", Reading::Plain);
    add_part(&mut parts, prefix, "post_feedforward_layernorm.weight", Reading::Plain);
    add_part(&mut parts, prefix, "input_layernorm.weight", Reading::Plain);
    add_mlp(&mut parts, prefix, "up_proj", 15360, 3840);
    add_mlp(&mut parts, prefix, "gate_proj", 15360, 3840);
    add_mlp(&mut parts, prefix, "down_proj", 3840, 15360);
    let ghost common = part_texts(parts@);
    assert(common =~= prefixed(prefix@, common_parts()));
    add_attention(&mut parts, prefix, kind_of_layer(layer));
    assert(part_texts(parts@) =~= layer_parts(layer as nat));
    parts
}

/// The tensors of the embedders and of what comes before and after the layers,
/// in the order in which they are read.
pub fn outer_plan() -> (r: Vec<&'static str>)
    ensures
        Seq::new(r@.len(), |i: int| r@[i]@) == outer_parts(),
{
    let names: Vec<&'static str> = vec![
        "model.language_model.embed_tokens.weight",
        "model.language_model.norm.weight",
        "model.vision_embedder.pos_embedding",
        "model.vision_embedder.patch_ln1.weight",
        "model.vision_embedder.patch_ln1.bias",
        "model.vision_embedder.patch_dense.weight",
        "model.vision_embedder.patch_dense.bias",
        "model.vision_embedder.patch_ln2.weight",
        "model.vision_embedder.patch_ln2.bias",
        "model.vision_embedder.pos_norm.weight",
        "model.vision_embedder.pos_norm.bias",
        "model.embed_vision.embedding_projection.weight",
        "model.embed_audio.embedding_projection.weight",
    ];
    assert(Seq::new(names@.len(), |i: int| names@[i]@) =~= outer_parts());
    names
}

/// No tensor belongs to two layers.
pub proof fn layers_share_no_tensor(a: nat, b: nat, i: int, j: int)
    requires
        a != b,
        0 <= i < layer_parts(a).len(),
        0 <= j < layer_parts(b).len(),
    ensures
        layer_parts(a)[i].0 != layer_parts(b)[j].0,
{
    let head = "model.language_model.layers."@;
    let x = layer_parts(a)[i].0;
    let y = layer_parts(b)[j].0;
    if x == y {
        decimal_denotes(a);
        decimal_denotes(b);
        reveal_strlit(".");
        let m = decimal(a).len();
        let n = decimal(b).len();
        let start = head.len() as int;
        assert(x[start + m] == '.');
        assert(y[start + n] == '.');
        if m < n {
            assert(y[start + m] == decimal(b)[m as int]);
            assert(is_digit(decimal(b)[m as int]));
        }
        if n < m {
            assert(x[start + n] == decimal(a)[n as int]);
            assert(is_digit(decimal(a)[n as int]));
        }
        assert forall|k: int| 0 <= k < m implies decimal(a)[k] == decimal(b)[k] by {
            assert(x[start + k] == decimal(a)[k]);
            assert(y[start + k] == decimal(b)[k]);
        }
        assert(decimal(a) =~= decimal(b));
    }
}

/// A tensor is read only where it has the type and the shape that are expected,
/// and its bytes are then those of the file.
pub proof fn tensors_are_as_expected(
    tensors: Map<Seq<char>, TensorText>,
    name: Seq<char>,
    dtype: Seq<char>,
    shape: Seq<usize>,
)
    ensures
        typed_bytes(tensors, name, dtype, shape) matches Ok(bytes) ==> bytes == tensors[name].data,
        typed_bytes(tensors, name, dtype, shape) is Ok <==> tensors.contains_key(name)
            && tensors[name].dtype == dtype && tensors[name].shape == shape,
        scalar_bits(tensors, name) is Ok <==> tensors.contains_key(name) && tensors[name].dtype
            == "F32"@ && tensors[name].data.len() == 4,
        scalar_bits(tensors, name) matches Ok(bits) ==> {
            let data = tensors[name].data;
            bits == data[0] + 256 * (data[1] + 256 * (data[2] + 256 * data[3]))
        },
{
}

/// A scale is used where it is a number other than zero: of its bits, those of
/// the exponent are not all set, and not all but the sign are clear.
pub proof fn scales_have_a_reciprocal(bits: u32)
    ensures
        usable_scale(bits) <==> bits != 0 && bits != 0x8000_0000 && (bits / 0x80_0000) % 256 != 255,
{
}

/// A layer has its own tensors, named after it. Only a sliding layer has a
/// projection for values, and the scales of the projections are as long as the
/// projections have rows.
pub proof fn layers_have_their_tensors(layer: nat)
    ensures
        ({
            let parts = layer_parts(layer);
            let prefix = "model.language_model.layers."@ + decimal(layer) + "."@;
            let full = (layer + 1) % 6 == 0;
            &&& parts.len() == if full {
                22nat
            } else {
                24nat
            }
            &&& forall|i: int|
                0 <= i < parts.len() ==> {
                    &&& (#[trigger] parts[i]).0.len() > prefix.len()
                    &&& parts[i].0.take(prefix.len() as int) == prefix
                }
            &&& parts[0] == (prefix + "pre_feedforward_layernorm.weight"@, Reading::Plain)
            &&& parts[1] == (prefix + "post_feedforward_layernorm.weight"@, Reading::Plain)
            &&& parts[2] == (prefix + "input_layernorm.weight"@, Reading::Plain)
            &&& parts[4] == (prefix + ("mlp."@ + "up_proj"@ + ".weight_scale"@), Reading::Plain)
            &&& parts[5].0 == prefix + ("mlp."@ + "up_proj"@ + ".weight_global_scale"@)
            &&& parts[7] == (prefix + ("mlp."@ + "gate_proj"@ + ".weight_scale"@), Reading::Plain)
            &&& parts[8].0 == prefix + ("mlp."@ + "gate_proj"@ + ".weight_global_scale"@)
            &&& parts[10] == (prefix + ("mlp."@ + "down_proj"@ + ".weight_scale"@), Reading::Plain)
            &&& parts[11].0 == prefix + ("mlp."@ + "down_proj"@ + ".weight_global_scale"@)
            &&& parts[3] == (prefix + ("mlp."@ + "up_proj"@ + ".weight_packed"@), Reading::Packed(
                15360,
                3840,
            ))
            &&& parts[6] == (prefix + ("mlp."@ + "gate_proj"@ + ".weight_packed"@), Reading::Packed(
                15360,
                3840,
            ))
            &&& parts[9] == (prefix + ("mlp."@ + "down_proj"@ + ".weight_packed"@), Reading::Packed(
                3840,
                15360,
            ))
            &&& parts[5].1 == Reading::Scale && parts[8].1 == Reading::Scale && parts[11].1
                == Reading::Scale
            &&& parts[12].0 == prefix + "self_attn.q_proj.weight"@
            &&& parts[13].0 == prefix + "self_attn.k_proj.weight"@
            &&& !full ==> {
                &&& parts[14].0 == prefix + "self_attn.v_proj.weight"@
                &&& parts[15] == (prefix + "self_attn.q_proj.weight_scale"@, Reading::Column(4096))
                &&& parts[16] == (prefix + "self_attn.k_proj.weight_scale"@, Reading::Column(2048))
                &&& parts[17] == (prefix + "self_attn.v_proj.weight_scale"@, Reading::Column(2048))
                &&& parts[18] == (prefix + "self_attn.q_norm.weight"@, Reading::Plain)
                &&& parts[19] == (prefix + "self_attn.k_norm.weight"@, Reading::Plain)
                &&& parts[20] == (prefix + "post_attention_layernorm.weight"@, Reading::Plain)
                &&& parts[21] == (prefix + "self_attn.o_proj.weight"@, Reading::Plain)
                &&& parts[22] == (prefix + "self_attn.o_proj.weight_scale"@, Reading::Column(3840))
                &&& parts[23] == (prefix + "layer_scalar"@, Reading::Scalar)
            }
            &&& full ==> {
                &&& parts[14] == (prefix + "self_attn.q_proj.weight_scale"@, Reading::Column(8192))
                &&& parts[15] == (prefix + "self_attn.k_proj.weight_scale"@, Reading::Column(512))
                &&& parts[16] == (prefix + "self_attn.q_norm.weight"@, Reading::Plain)
                &&& parts[17] == (prefix + "self_attn.k_norm.weight"@, Reading::Plain)
                &&& parts[18] == (prefix + "post_attention_layernorm.weight"@, Reading::Plain)
                &&& parts[19] == (prefix + "self_attn.o_proj.weight"@, Reading::Plain)
                &&& parts[20] == (prefix + "self_attn.o_proj.weight_scale"@, Reading::Column(3840))
                &&& parts[21] == (prefix + "layer_scalar"@, Reading::Scalar)
            }
        }),
{
    reveal_strlit("pre_feedforward_layernorm.weight");
    reveal_strlit("post_feedforward_layernorm.weight");
    reveal_strlit("input_layernorm.weight");
    reveal_strlit("mlp.");
    reveal_strlit("self_attn.q_proj.weight");
    reveal_strlit("self_attn.k_proj.weight");
    reveal_strlit("self_attn.v_proj.weight");
    reveal_strlit("self_attn.q_proj.weight_scale");
    reveal_strlit("self_attn.k_proj.weight_scale");
    reveal_strlit("self_attn.v_proj.weight_scale");
    reveal_strlit("self_attn.q_norm.weight");
    reveal_strlit("self_attn.k_norm.weight");
    reveal_strlit("post_attention_layernorm.weight");
    reveal_strlit("self_attn.o_proj.weight");
    reveal_strlit("self_attn.o_proj.weight_scale");
    reveal_strlit("layer_scalar");
    let parts = layer_parts(layer);
    let prefix = layer_prefix(layer);
    let names = common_parts() + attention_parts(layer_kind(layer));
    assert forall|i: int| 0 <= i < parts.len() implies {
        &&& (#[trigger] parts[i]).0.len() > prefix.len()
        &&& parts[i].0.take(prefix.len() as int) == prefix
    } by {
        assert(parts[i].0 == prefix + names[i].0);
        assert(names[i].0.len() > 0) by {
            if i < 12 {
                assert(names[i] == common_parts()[i]);
            } else {
                assert(names[i] == attention_parts(layer_kind(layer))[i - 12]);
            }
        }
        assert(parts[i].0.take(prefix.len() as int) =~= prefix);
    }
}

/// A text in quotes is quoted from its first quote up to the next, and a quote
/// behind a backslash does not end it.
pub proof fn quoted_texts_are_passed_over(front: Seq<u8>, text: Seq<u8>, byte: u8)
    requires
        place_after(front) == Place::Outside,
        forall|i: int| 0 <= i < text.len() ==> #[trigger] text[i] != 0x22 && text[i] != 0x5c,
    ensures
        place_after(front + seq![0x22u8] + text) == Place::Quoted,
        place_after(front + seq![0x22u8] + text + seq![0x22u8]) == Place::Outside,
        place_after(front + seq![0x22u8] + text + seq![0x5cu8, byte]) == Place::Quoted,
        byte != 0x22 ==> place_after(front + seq![byte]) == Place::Outside,
    decreases text.len(),
{
    let open = front + seq![0x22u8];
    assert(open.drop_last() =~= front);
    assert((front + seq![byte]).drop_last() =~= front);
    let all = open + text;
    if text.len() == 0 {
        assert(all =~= open);
    } else {
        let init = text.drop_last();
        assert forall|i: int| 0 <= i < init.len() implies #[trigger] init[i] != 0x22 && init[i]
            != 0x5c by {
            assert(init[i] == text[i]);
        }
        quoted_texts_are_passed_over(front, init, byte);
        assert(all.drop_last() =~= open + init);
        assert(all.last() == text[text.len() - 1]);
    }
    assert(place_after(all) == Place::Quoted);
    assert((all + seq![0x22u8]).drop_last() =~= all);
    let slash = all + seq![0x5cu8];
    assert(slash.drop_last() =~= all);
    assert(slash.last() == 0x5c);
    assert(place_after(slash) == Place::Escaped);
    let escaped = all + seq![0x5cu8, byte];
    assert(escaped.drop_last() =~= slash);
    assert(escaped.last() == byte);
}

/// Digits denote the number that they spell in base ten.
pub proof fn digits_spell_numbers(n: nat)
    ensures
        number_of(Seq::new(decimal(n).len(), |i: int| decimal(n)[i] as u8)) == n,
    decreases n,
{
    decimal_denotes(n);
    let digits = Seq::new(decimal(n).len(), |i: int| decimal(n)[i] as u8);
    if n < 10 {
        assert(digits.drop_last().len() == 0);
        assert(number_of(digits.drop_last()) == 0);
        assert(digits.last() == 0x30 + n);
    } else {
        digits_spell_numbers(n / 10);
        let head = Seq::new(decimal(n / 10).len(), |i: int| decimal(n / 10)[i] as u8);
        assert(digits.drop_last() =~= head);
        assert(digits.last() == 0x30 + n % 10);
    }
}

/// The header of a weights file is found by the length in front of it.
pub proof fn headers_are_found(header: Seq<u8>, rest: Seq<u8>)
    requires
        header.len() <= u64::MAX,
    ensures
        header_of(spelled(header.len(), 8) + header + rest) == header,
{
    let n = header.len();
    let file = spelled(n, 8) + header + rest;
    spelled_in_eight(n);
    let s = spelled(n, 8);
    assert(file[0] == s[0] && file[1] == s[1] && file[2] == s[2] && file[3] == s[3] && file[4]
        == s[4] && file[5] == s[5] && file[6] == s[6] && file[7] == s[7]);
    assert(header_length(file) == n);
    assert(file.subrange(8, 8 + n as int) =~= header);
}

proof fn spelled_in_eight(n: nat)
    requires
        n <= u64::MAX,
    ensures
        spelled(n, 8).len() == 8,
        header_length(spelled(n, 8)) == n,
{
    reveal_with_fuel(spelled, 9);
    let a = n / 256;
    let b = a / 256;
    let c = b / 256;
    let d = c / 256;
    let e = d / 256;
    let f = e / 256;
    let g = f / 256;
    let s = spelled(n, 8);
    assert(s[0] == n % 256 && s[1] == a % 256 && s[2] == b % 256 && s[3] == c % 256);
    assert(s[4] == d % 256 && s[5] == e % 256 && s[6] == f % 256 && s[7] == g % 256);
    assert(g < 256);
}

/// A file whose header names, outside its quoted texts, a number that a `usize`
/// holds but that overflows once the length of the file is added does not leave
/// room.
pub proof fn great_numbers_leave_no_room(bytes: Seq<u8>, front: Seq<u8>, n: nat, back: Seq<u8>)
    requires
        header_of(bytes) == front + Seq::new(decimal(n).len(), |i: int| decimal(n)[i] as u8) + back,
        place_after(front) == Place::Outside,
        front.len() > 0 ==> !(0x30 <= front.last() <= 0x39),
        back.len() > 0 ==> !(0x30 <= back[0] <= 0x39),
        n <= usize::MAX < n + bytes.len(),
    ensures
        !numbers_leave_room(bytes),
{
    let digits = Seq::new(decimal(n).len(), |i: int| decimal(n)[i] as u8);
    let header = front + digits + back;
    decimal_denotes(n);
    digits_spell_numbers(n);
    let (a, b) = (front.len() as int, (front.len() + digits.len()) as int);
    assert forall|i: int| 0 <= i < digits.len() implies 0x30 <= #[trigger] digits[i] <= 0x39 by {
        assert(is_digit(decimal(n)[i]));
    }
    assert forall|i: int| a <= i < b implies digit_at(header, i) by {
        outside_among_digits(front, digits, i - a);
        assert(header.take(i) =~= front + digits.take(i - a));
        assert(header[i] == digits[i - a]);
    }
    if a > 0 {
        assert(header[a - 1] == front.last());
    }
    if b < header.len() {
        assert(header[b] == back[0]);
    }
    assert(run_of_digits(header, a, b));
    assert(header.subrange(a, b) =~= digits);
}

proof fn outside_among_digits(front: Seq<u8>, digits: Seq<u8>, k: int)
    requires
        place_after(front) == Place::Outside,
        0 <= k <= digits.len(),
        forall|i: int| 0 <= i < digits.len() ==> 0x30 <= #[trigger] digits[i] <= 0x39,
    ensures
        place_after(front + digits.take(k)) == Place::Outside,
    decreases k,
{
    let all = front + digits.take(k);
    if k == 0 {
        assert(all =~= front);
    } else {
        outside_among_digits(front, digits, k - 1);
        assert(all.drop_last() =~= front + digits.take(k - 1));
        assert(all.last() == digits[k - 1]);
    }
}

/// The tensors outside the layers are these.
pub proof fn outer_tensors_are_named()
    ensures
        outer_parts().len() == 13,
        outer_parts()[0] == "model.language_model.embed_tokens.weight"@,
        outer_parts()[1] == "model.language_model.norm.weight"@,
        outer_parts()[2] == "model.vision_embedder.pos_embedding"@,
        outer_parts()[3] == "model.vision_embedder.patch_ln1.weight"@,
        outer_parts()[4] == "model.vision_embedder.patch_ln1.bias"@,
        outer_parts()[5] == "model.vision_embedder.patch_dense.weight"@,
        outer_parts()[6] == "model.vision_embedder.patch_dense.bias"@,
        outer_parts()[7] == "model.vision_embedder.patch_ln2.weight"@,
        outer_parts()[8] == "model.vision_embedder.patch_ln2.bias"@,
        outer_parts()[9] == "model.vision_embedder.pos_norm.weight"@,
        outer_parts()[10] == "model.vision_embedder.pos_norm.bias"@,
        outer_parts()[11] == "model.embed_vision.embedding_projection.weight"@,
        outer_parts()[12] == "model.embed_audio.embedding_projection.weight"@,
{
}

} // verus!
