//! Records as text: the display form for people and the diagnostic form
//! that shows the two byte fields unfiltered.

use crate::record::{Data, Record};
use crate::text::{decimal, padded, push_char, push_decimal, push_decimal_padded};
use bstr::ByteSlice;
use vstd::prelude::*;
use vstd::string::StringExecFns;

verus! {

/// The byte is a printable ASCII character: neither a control character nor
/// beyond ASCII.
pub open spec fn is_printable(b: u8) -> bool {
    0x20 <= b <= 0x7e
}

/// The byte ends the text of a field: a zero byte or one beyond ASCII.
pub open spec fn ends_text(b: u8) -> bool {
    b == 0 || b >= 0x80
}

/// Bytes of a field before the first byte that ends its text.
pub open spec fn text_len(bytes: Seq<u8>) -> nat
    decreases bytes.len(),
{
    if bytes.len() == 0 || ends_text(bytes[0]) {
        0
    } else {
        1 + text_len(bytes.drop_first())
    }
}

/// The printable characters among `bytes`, in order.
pub open spec fn printable(bytes: Seq<u8>) -> Seq<char>
    decreases bytes.len(),
{
    if bytes.len() == 0 {
        Seq::empty()
    } else if is_printable(bytes.last()) {
        printable(bytes.drop_last()).push(bytes.last() as char)
    } else {
        printable(bytes.drop_last())
    }
}

/// What the display form shows of a field: the printable characters of its
/// text, the text ending before the first zero or non-ASCII byte.
pub open spec fn shown(bytes: Seq<u8>) -> Seq<char> {
    printable(bytes.subrange(0, text_len(bytes) as int))
}

/// The layout of the diagnostic form: uid and pid in columns of six, then
/// the two fields as given.
pub open spec fn debug_layout(uid: u32, pid: u32, command: Seq<char>, path: Seq<char>) -> Seq<
    char,
> {
    padded(decimal(uid as nat), 6) + " "@ + padded(decimal(pid as nat), 6) + ", cmd: "@ + command
        + ", path: "@ + path
}

/// What `bstr` writes for a byte string that is formatted left-aligned in
/// `width` columns.
pub uninterp spec fn bstr_display(bytes: Seq<u8>, width: nat) -> Seq<char>;

impl Record {
    /// The display form: uid, pid, and what is shown of the two fields.
    pub open spec fn display(self) -> Seq<char> {
        decimal(self.uid as nat) + "  "@ + decimal(self.pid as nat) + ", cmd: "@ + shown(
            self.command,
        ) + ", path: "@ + shown(self.path)
    }

    /// The diagnostic form: the two fields as `bstr` writes them, the
    /// command in sixteen columns.
    pub open spec fn debug(self) -> Seq<char> {
        debug_layout(
            self.uid,
            self.pid,
            bstr_display(self.command, 16),
            bstr_display(self.path, 0),
        )
    }
}

/// A prefix without an ending byte that is the whole field or stands before
/// an ending byte is the field's text.
pub proof fn lemma_text_len_is(bytes: Seq<u8>, n: nat)
    requires
        n <= bytes.len(),
        forall|i: int| 0 <= i < n ==> !ends_text(bytes[i]),
        n == bytes.len() || ends_text(bytes[n as int]),
    ensures
        text_len(bytes) == n,
    decreases bytes.len(),
{
    if n > 0 {
        let rest = bytes.drop_first();
        assert forall|i: int| 0 <= i < n - 1 implies !ends_text(rest[i]) by {
            assert(rest[i] == bytes[i + 1]);
        }
        lemma_text_len_is(rest, (n - 1) as nat);
    }
}

/// A field that starts with an ending byte shows nothing.
pub proof fn lemma_shown_nothing(bytes: Seq<u8>)
    requires
        bytes.len() > 0,
        ends_text(bytes[0]),
    ensures
        shown(bytes) == Seq::<char>::empty(),
{
}

/// `<bstr::BStr as core::fmt::Display>::fmt`, reached through `format!` with
/// left alignment and a width: the bytes that are UTF-8 as they are, one
/// replacement character for each stretch that is not, and spaces behind
/// them up to `width` characters. The text depends on the bytes and the
/// width alone.
#[verifier::external_body]
fn lossy(bytes: &[u8], width: usize) -> (text: String)
    ensures
        text@ == bstr_display(bytes@, width as nat),
{
    format!("{:<1$}", bytes.as_bstr(), width)
}

/// Lays out the diagnostic form from its parts.
pub fn debug_form(uid: u32, pid: u32, command: &str, path: &str) -> (s: String)
    ensures
        s@ == debug_layout(uid, pid, command@, path@),
{
    let mut s = String::new();
    push_decimal_padded(&mut s, uid as u64, 6);
    s.append(" ");
    push_decimal_padded(&mut s, pid as u64, 6);
    s.append(", cmd: ");
    s.append(command);
    s.append(", path: ");
    s.append(path);
    s
}

impl Data {
    /// Puts at the end of `f` what the display form shows of one field: its
    /// printable characters up to the first zero or non-ASCII byte.
    pub fn display_chars(&self, f: &mut String, chars: &[u8])
        ensures
            final(f)@ == old(f)@ + shown(chars@),
    {
        let mut i: usize = 0;
        while i < chars.len() && chars[i] != 0 && chars[i] < 0x80
            invariant
                i <= chars@.len(),
                forall|j: int| 0 <= j < i ==> !ends_text(chars@[j]),
                f@ == old(f)@ + printable(chars@.subrange(0, i as int)),
            decreases chars@.len() - i,
        {
            let b = chars[i];
            assert(chars@.subrange(0, i + 1).drop_last() =~= chars@.subrange(0, i as int));
            if 0x20 <= b && b <= 0x7e {
                push_char(f, b as char);
            }
            i = i + 1;
        }
        proof {
            lemma_text_len_is(chars@, i as nat);
        }
    }

    /// The display form of the record.
    pub fn to_string(&self) -> (s: String)
        ensures
            s@ == self@.display(),
    {
        let mut s = String::new();
        let _ = push_decimal(&mut s, self.uid as u64);
        s.append("  ");
        let _ = push_decimal(&mut s, self.pid as u64);
        s.append(", cmd: ");
        self.display_chars(&mut s, self.command.as_slice());
        s.append(", path: ");
        self.display_chars(&mut s, self.path.as_slice());
        s
    }

    /// The diagnostic form of the record.
    pub fn to_debug_string(&self) -> (s: String)
        ensures
            s@ == self@.debug(),
    {
        let command = lossy(self.command.as_slice(), 16);
        let path = lossy(self.path.as_slice(), 0);
        debug_form(self.uid, self.pid, command.as_str(), path.as_str())
    }
}

} // verus!
