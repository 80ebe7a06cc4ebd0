use vstd::prelude::*;

use sha2::{Digest, Sha256};

use super::transaction::{view_utxos, Transaction, TransactionView, UtxoView, UTXO};

verus! {

/// The character of a decimal digit.
pub open spec fn digit_char(d: int) -> char {
    (d + 48) as char
}

/// The decimal digits of `n`, without leading zeros.
pub open spec fn decimal(n: nat) -> Seq<char>
    decreases n,
{
    if n < 10 {
        seq![digit_char(n as int)]
    } else {
        decimal(n / 10).push(digit_char((n % 10) as int))
    }
}

/// The lower-case character of a hexadecimal digit.
pub open spec fn hex_digit(d: int) -> char {
    if d < 10 {
        (d + 48) as char
    } else {
        (d + 87) as char
    }
}

/// How JSON writes one character inside a string: quote, backslash and the
/// control characters are escaped, everything else stands as it is.
pub open spec fn json_escape_char(c: char) -> Seq<char> {
    if c == '"' {
        seq!['\\', '"']
    } else if c == '\\' {
        seq!['\\', '\\']
    } else if c == '\x08' {
        seq!['\\', 'b']
    } else if c == '\t' {
        seq!['\\', 't']
    } else if c == '\n' {
        seq!['\\', 'n']
    } else if c == '\x0c' {
        seq!['\\', 'f']
    } else if c == '\r' {
        seq!['\\', 'r']
    } else if (c as u32) < 0x20 {
        seq!['\\', 'u', '0', '0', hex_digit(((c as u32) / 16) as int), hex_digit(((c as u32) % 16) as int)]
    } else {
        seq![c]
    }
}

/// The escaped contents of a JSON string.
pub open spec fn json_escape(s: Seq<char>) -> Seq<char>
    decreases s.len(),
{
    if s.len() == 0 {
        Seq::empty()
    } else {
        json_escape(s.drop_last()) + json_escape_char(s.last())
    }
}

/// A string as JSON writes it.
pub open spec fn json_string(s: Seq<char>) -> Seq<char> {
    seq!['"'] + json_escape(s) + seq!['"']
}

/// An output as JSON writes it.
pub open spec fn utxo_json(u: UtxoView) -> Seq<char> {
    "{\"value\":"@ + decimal(u.value as nat) + ",\"receiver\":"@ + json_string(u.receiver) + "}"@
}

/// The elements of a list of outputs, separated by commas.
pub open spec fn utxo_items_json(s: Seq<UtxoView>) -> Seq<char>
    decreases s.len(),
{
    if s.len() == 0 {
        Seq::empty()
    } else if s.len() == 1 {
        utxo_json(s[0])
    } else {
        utxo_items_json(s.drop_last()) + ","@ + utxo_json(s.last())
    }
}

/// A list of outputs as JSON writes it.
pub open spec fn utxo_list_json(s: Seq<UtxoView>) -> Seq<char> {
    "["@ + utxo_items_json(s) + "]"@
}

/// A transaction as JSON writes it.
pub open spec fn transaction_json(t: TransactionView) -> Seq<char> {
    "{\"inputs\":"@ + utxo_list_json(t.inputs) + ",\"outputs\":"@ + utxo_list_json(t.outputs)
        + "}"@
}

/// Listing two runs of outputs one after the other writes the first run,
/// a comma, then the second run.
pub proof fn lemma_utxo_items_concat(a: Seq<UtxoView>, b: Seq<UtxoView>)
    requires
        a.len() > 0,
        b.len() > 0,
    ensures
        utxo_items_json(a + b) == utxo_items_json(a) + ","@ + utxo_items_json(b),
    decreases b.len(),
{
    let ab = a + b;
    if b.len() == 1 {
        assert(ab.drop_last() =~= a);
        assert(ab.last() == b[0]);
    } else {
        lemma_utxo_items_concat(a, b.drop_last());
        assert(ab.drop_last() =~= a + b.drop_last());
        assert(ab.last() == b.last());
        assert(utxo_items_json(ab) =~= utxo_items_json(a) + ","@ + utxo_items_json(b));
    }
}

/// A transaction's inputs are written in their order: where they are a run
/// `a` followed by a run `b`, the text lists `a` first, then `b`.
pub proof fn lemma_transaction_json_inputs_in_order(
    a: Seq<UtxoView>,
    b: Seq<UtxoView>,
    outs: Seq<UtxoView>,
)
    requires
        a.len() > 0,
        b.len() > 0,
    ensures
        transaction_json(TransactionView { inputs: a + b, outputs: outs }) == "{\"inputs\":"@
            + "["@ + utxo_items_json(a) + ","@ + utxo_items_json(b) + "]"@ + ",\"outputs\":"@
            + utxo_list_json(outs) + "}"@,
{
    lemma_utxo_items_concat(a, b);
    assert(transaction_json(TransactionView { inputs: a + b, outputs: outs }) =~= "{\"inputs\":"@
        + "["@ + utxo_items_json(a) + ","@ + utxo_items_json(b) + "]"@ + ",\"outputs\":"@
        + utxo_list_json(outs) + "}"@);
}

/// A transaction's outputs are written in their order: where they are a
/// run `a` followed by a run `b`, the text lists `a` first, then `b`.
pub proof fn lemma_transaction_json_outputs_in_order(
    ins: Seq<UtxoView>,
    a: Seq<UtxoView>,
    b: Seq<UtxoView>,
)
    requires
        a.len() > 0,
        b.len() > 0,
    ensures
        transaction_json(TransactionView { inputs: ins, outputs: a + b }) == "{\"inputs\":"@
            + utxo_list_json(ins) + ",\"outputs\":"@ + "["@ + utxo_items_json(a) + ","@
            + utxo_items_json(b) + "]"@ + "}"@,
{
    lemma_utxo_items_concat(a, b);
    assert(transaction_json(TransactionView { inputs: ins, outputs: a + b }) =~= "{\"inputs\":"@
        + utxo_list_json(ins) + ",\"outputs\":"@ + "["@ + utxo_items_json(a) + ","@
        + utxo_items_json(b) + "]"@ + "}"@);
}

/// A single output is listed as its own text.
pub proof fn lemma_utxo_items_single(u: UtxoView)
    ensures
        utxo_items_json(seq![u]) == utxo_json(u),
{
}

/// The lower-case hexadecimal spelling of a byte string, two digits a byte.
pub open spec fn lower_hex(bytes: Seq<u8>) -> Seq<char>
    decreases bytes.len(),
{
    if bytes.len() == 0 {
        Seq::empty()
    } else {
        lower_hex(bytes.drop_last()) + seq![
            hex_digit((bytes.last() / 16) as int),
            hex_digit((bytes.last() % 16) as int),
        ]
    }
}

/// The SHA-256 digest of the UTF-8 encoding of a text.
pub uninterp spec fn sha256_utf8(text: Seq<char>) -> Seq<u8>;

/// Computes the SHA-256 digest of the UTF-8 bytes of `text` with the `sha2`
/// crate (`Sha256::new`, `update`, `finalize`). The contract names the
/// digest and says that it is 32 bytes long; the digest itself is not
/// stated.
#[verifier::external_body]
fn sha256_digest(text: &str) -> (digest: Vec<u8>)
    ensures
        digest@ == sha256_utf8(text@),
        digest@.len() == 32,
{
    let mut hasher = Sha256::new();
    hasher.update(text);
    hasher.finalize().to_vec()
}

/// Writes `s` as a JSON string with `serde_json::to_string`: in quotes,
/// with `"`, `\` and the control characters escaped as `serde_json`'s
/// escape table does. Writing a string into memory cannot fail, so the
/// error case is not reached.
#[verifier::external_body]
fn json_of_str(s: &str) -> (res: String)
    ensures
        res@ == json_string(s@),
{
    serde_json::to_string(s).unwrap()
}

/// Writes `n` as a JSON number with `serde_json::to_string`: its decimal
/// digits, without sign or leading zeros. Writing a number into memory
/// cannot fail, so the error case is not reached.
#[verifier::external_body]
fn json_of_u64(n: &u64) -> (res: String)
    ensures
        res@ == decimal(*n as nat),
{
    serde_json::to_string(n).unwrap()
}

/// Appends one character with `String::push`.
#[verifier::external_body]
fn push_char(s: &mut String, c: char)
    ensures
        final(s)@ == old(s)@.push(c),
{
    s.push(c);
}

/// Appends the JSON form of a string.
pub fn append_json_str(out: &mut String, s: &str)
    ensures
        final(out)@ == old(out)@ + json_string(s@),
{
    let piece = json_of_str(s);
    out.append(piece.as_str());
}

/// Appends the JSON form of a number.
pub fn append_json_u64(out: &mut String, n: u64)
    ensures
        final(out)@ == old(out)@ + decimal(n as nat),
{
    let piece = json_of_u64(&n);
    out.append(piece.as_str());
}

/// Appends the JSON form of an output.
pub fn append_utxo_json(out: &mut String, u: &UTXO)
    ensures
        final(out)@ == old(out)@ + utxo_json(u@),
{
    let ghost start = out@;
    out.append("{\"value\":");
    append_json_u64(out, u.value);
    out.append(",\"receiver\":");
    append_json_str(out, u.receiver.as_str());
    out.append("}");
    assert(out@ =~= start + utxo_json(u@));
}

/// Appends the JSON form of a list of outputs.
pub fn append_utxo_list_json(out: &mut String, list: &Vec<UTXO>)
    ensures
        final(out)@ == old(out)@ + utxo_list_json(view_utxos(list@)),
{
    let ghost start = out@;
    out.append("[");
    let mut i: usize = 0;
    while i < list.len()
        invariant
            i <= list@.len(),
            out@ == start + "["@ + utxo_items_json(view_utxos(list@.subrange(0, i as int))),
        decreases list@.len() - i,
    {
        let ghost before = out@;
        assert(view_utxos(list@.subrange(0, i + 1)).drop_last() =~= view_utxos(
            list@.subrange(0, i as int),
        ));
        if i > 0 {
            out.append(",");
        }
        append_utxo_json(out, &list[i]);
        proof {
            if i == 0 {
                assert(view_utxos(list@.subrange(0, 1)) =~= seq![list@[0]@]);
                assert(utxo_items_json(view_utxos(list@.subrange(0, i as int))) =~= Seq::empty());
            }
        }
        assert(out@ =~= start + "["@ + utxo_items_json(view_utxos(list@.subrange(0, i + 1))));
        i = i + 1;
    }
    out.append("]");
    assert(list@.subrange(0, list@.len() as int) =~= list@);
    assert(out@ =~= start + utxo_list_json(view_utxos(list@)));
}

/// Appends the JSON form of a transaction.
pub fn append_transaction_json(out: &mut String, t: &Transaction)
    ensures
        final(out)@ == old(out)@ + transaction_json(t@),
{
    let ghost start = out@;
    out.append("{\"inputs\":");
    append_utxo_list_json(out, &t.inputs);
    out.append(",\"outputs\":");
    append_utxo_list_json(out, &t.outputs);
    out.append("}");
    assert(out@ =~= start + transaction_json(t@));
}

/// The hexadecimal digit of a value below 16.
fn hex_digit_char(d: u8) -> (c: char)
    requires
        d < 16,
    ensures
        c == hex_digit(d as int),
{
    if d < 10 {
        (d + 48) as char
    } else {
        (d + 87) as char
    }
}

/// Spells a byte string in lower-case hexadecimal, two digits a byte.
pub fn to_lower_hex(bytes: &Vec<u8>) -> (res: String)
    ensures
        res@ == lower_hex(bytes@),
        res@.len() == 2 * bytes@.len(),
{
    let mut res = String::new();
    let mut i: usize = 0;
    while i < bytes.len()
        invariant
            i <= bytes@.len(),
            res@ == lower_hex(bytes@.subrange(0, i as int)),
            res@.len() == 2 * i,
        decreases bytes@.len() - i,
    {
        let b = bytes[i];
        assert(bytes@.subrange(0, i + 1).drop_last() =~= bytes@.subrange(0, i as int));
        push_char(&mut res, hex_digit_char(b / 16));
        push_char(&mut res, hex_digit_char(b % 16));
        assert(res@ =~= lower_hex(bytes@.subrange(0, i + 1)));
        i = i + 1;
    }
    assert(bytes@.subrange(0, bytes@.len() as int) =~= bytes@);
    res
}

/// The lower-case hexadecimal SHA-256 digest of the UTF-8 bytes of `text`.
pub fn sha256_hex(text: &str) -> (res: String)
    ensures
        res@ == lower_hex(sha256_utf8(text@)),
        res@.len() == 64,
{
    let digest = sha256_digest(text);
    to_lower_hex(&digest)
}

} // verus!
