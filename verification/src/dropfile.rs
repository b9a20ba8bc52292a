//! The `DOOR32.SYS` status file: its name, its lines, and its rewriting.
//!
//! The file is text in code page 437 with lines that end in CR LF. Its first
//! line is the kind of connection and its second the descriptor. The bridge
//! writes both anew and copies every later line.

use crate::codepage::{
    decode, decoded, decoder, encode, encoded, faithful, faithful_byte, lemma_decode_encode,
    lemma_encode_decode, representable,
};
use crate::descriptor::Platform;
use crate::text::{
    chars_of, decimal, decimal_bytes, free_of, join_with, lemma_decimal_digits, lemma_join_push,
    lemma_join_split, lemma_split_join, lemma_split_mapped, lemma_split_within, lines_ended,
    push_decimal_bytes, split, split_on, string_of, without_ending,
};
use vstd::prelude::*;

verus! {

/// The one name that a status file may have, in any mix of upper and lower case.
pub const DOOR32_SYS_FILENAME: &'static str = "DOOR32.SYS";

/// The first line that the bridge writes: the digit of a telnet connection.
pub const COMM_TYPE_TELNET: u8 = 0x32;

/// Why a status file was not read or not written.
#[derive(Clone, Copy, Debug, PartialEq, Eq, Structural)]
pub enum DropfileError {
    /// The path ends in no file name.
    NotAFile,
    /// The file is not named `DOOR32.SYS`.
    NameMismatch,
    /// The place for the new file is no directory.
    NotADirectory,
    /// The line with this index, counted from 0, holds a character that code
    /// page 437 cannot represent.
    Encoding { line: usize },
}

/// The lowercase form of a text: what `str::to_lowercase` returns for it.
pub uninterp spec fn lowercase(text: Seq<char>) -> Seq<char>;

/// `str::to_lowercase`: the lowercase form of the text by the rules of
/// Unicode, which depend on nothing but the text.
#[verifier::external_body]
fn to_lowercase(text: &str) -> (lower: String)
    ensures
        lower@ == lowercase(text@),
{
    text.to_lowercase()
}

/// The name under which a status file is written: in lower case where sockets
/// are handles, as it is given elsewhere.
pub fn dropfile_filename(filename: &str, platform: Platform) -> (name: String)
    ensures
        platform == Platform::HandleBased ==> name@ == lowercase(filename@),
        platform == Platform::DescriptorBased ==> name@ == filename@,
{
    match platform {
        Platform::HandleBased => to_lowercase(filename),
        Platform::DescriptorBased => filename.to_owned(),
    }
}

/// An ASCII capital letter as its small letter; any other character as it is.
pub open spec fn ascii_lower(c: char) -> char {
    if 'A' <= c <= 'Z' {
        ((c as u8) + 32) as char
    } else {
        c
    }
}

/// Whether two texts are equal once the ASCII capitals of both are made small.
pub open spec fn same_ignoring_ascii_case(a: Seq<char>, b: Seq<char>) -> bool {
    a.map_values(|c: char| ascii_lower(c)) == b.map_values(|c: char| ascii_lower(c))
}

/// Whether a file name is that of a status file.
pub open spec fn is_dropfile_name(name: Seq<char>) -> bool {
    same_ignoring_ascii_case(name, DOOR32_SYS_FILENAME@)
}

fn lower(c: char) -> (l: char)
    ensures
        l == ascii_lower(c),
{
    if c >= 'A' && c <= 'Z' {
        ((c as u8) + 32) as char
    } else {
        c
    }
}

/// Compares two strings without regard to the case of ASCII letters.
pub fn eq_ignore_ascii_case(a: &str, b: &str) -> (same: bool)
    ensures
        same == same_ignoring_ascii_case(a@, b@),
{
    let x = chars_of(a);
    let y = chars_of(b);
    let ghost fx = a@.map_values(|c: char| ascii_lower(c));
    let ghost fy = b@.map_values(|c: char| ascii_lower(c));
    if x.len() != y.len() {
        assert(fx.len() != fy.len());
        return false;
    }
    let mut i: usize = 0;
    while i < x.len()
        invariant
            x@ == a@,
            y@ == b@,
            x.len() == y.len(),
            i <= x.len(),
            fx == a@.map_values(|c: char| ascii_lower(c)),
            fy == b@.map_values(|c: char| ascii_lower(c)),
            forall|j: int| 0 <= j < i ==> ascii_lower(x@[j]) == ascii_lower(y@[j]),
        decreases x.len() - i,
    {
        if lower(x[i]) != lower(y[i]) {
            assert(fx[i as int] != fy[i as int]);
            return false;
        }
        i += 1;
    }
    assert(fx =~= fy);
    true
}

/// Accepts the file name of a status file and refuses every other: a path
/// that ends in no file name, and a name that is not `DOOR32.SYS`.
pub fn check_dropfile_name(file_name: Option<&str>) -> (checked: Result<(), DropfileError>)
    ensures
        checked is Ok <==> file_name is Some && is_dropfile_name(file_name.unwrap()@),
        file_name is None ==> checked == Err::<(), DropfileError>(DropfileError::NotAFile),
        file_name is Some && !is_dropfile_name(file_name.unwrap()@) ==> checked == Err::<
            (),
            DropfileError,
        >(DropfileError::NameMismatch),
{
    match file_name {
        None => Err(DropfileError::NotAFile),
        Some(name) => {
            if eq_ignore_ascii_case(name, DOOR32_SYS_FILENAME) {
                Ok(())
            } else {
                Err(DropfileError::NameMismatch)
            }
        },
    }
}

/// The lines of a text: they end in LF or CR LF, and the last one may end
/// with the text.
pub open spec fn lines_of(text: Seq<char>) -> Seq<Seq<char>> {
    lines_ended(text, '\n', '\r')
}

/// The lines of legacy bytes, ended in the same way.
pub open spec fn byte_lines(bytes: Seq<u8>) -> Seq<Seq<u8>> {
    lines_ended(bytes, 0x0Au8, 0x0Du8)
}

/// The lines of a text.
pub fn lines(text: &str) -> (found: Vec<String>)
    ensures
        found.deep_view() == lines_of(text@),
{
    let pieces = split(text, '\n');
    proof {
        lemma_split_join(text@, '\n');
    }
    let n: usize = pieces.len();
    let ghost ended = pieces.deep_view().drop_last().map_values(
        |piece: Seq<char>| without_ending(piece, '\r'),
    );
    let mut found: Vec<String> = Vec::new();
    let mut i: usize = 0;
    while i + 1 < n
        invariant
            n == pieces.len(),
            n >= 1,
            i + 1 <= n,
            found.deep_view() =~~= ended.take(i as int),
            ended == pieces.deep_view().drop_last().map_values(
                |piece: Seq<char>| without_ending(piece, '\r'),
            ),
        decreases n - i,
    {
        let chars = chars_of(pieces[i].as_str());
        let len: usize = chars.len();
        let end: usize = if len > 0 && chars[len - 1] == '\r' {
            len - 1
        } else {
            len
        };
        let line = string_of(&chars, 0, end);
        proof {
            assert(pieces.deep_view()[i as int] == pieces[i as int]@);
            assert(line@ =~= without_ending(pieces[i as int]@, '\r'));
        }
        let ghost before = found.deep_view();
        found.push(line);
        i += 1;
        assert(found.deep_view() =~~= before.push(line@));
    }
    assert(ended.take(i as int) =~~= ended);
    assert(pieces.deep_view().last() == pieces[n - 1]@);
    if !pieces[n - 1].as_str().is_empty() {
        let last = pieces[n - 1].clone();
        let ghost before = found.deep_view();
        found.push(last);
        assert(found.deep_view() =~~= before.push(last@));
    }
    found
}

/// A line of the file with its ending, CR LF.
pub open spec fn record(line: Seq<u8>) -> Seq<u8> {
    line + seq![0x0Du8, 0x0Au8]
}

/// The bytes of a file that holds these lines, each with its ending.
pub open spec fn records(lines: Seq<Seq<u8>>) -> Seq<u8>
    decreases lines.len(),
{
    if lines.len() == 0 {
        Seq::<u8>::empty()
    } else {
        records(lines.drop_last()) + record(lines.last())
    }
}

/// The lines that a rewriting copies: all but the first two.
pub open spec fn kept<A>(lines: Seq<Seq<A>>) -> Seq<Seq<A>> {
    if lines.len() <= 2 {
        Seq::<Seq<A>>::empty()
    } else {
        lines.skip(2)
    }
}

/// The lines of a rewritten file: the connection type, the descriptor in
/// decimal, and the lines that were kept.
pub open spec fn rewritten_lines(descriptor: nat, kept: Seq<Seq<u8>>) -> Seq<Seq<u8>> {
    seq![seq![COMM_TYPE_TELNET], decimal_bytes(descriptor)] + kept
}

/// The rewritten file for a text: its first two lines replaced, its later
/// lines encoded one by one.
pub open spec fn rewritten_text(text: Seq<char>, descriptor: nat) -> Seq<u8> {
    records(
        rewritten_lines(
            descriptor,
            kept(lines_of(text)).map_values(|line: Seq<char>| encoded(line)),
        ),
    )
}

/// The rewritten file for the bytes of a file: its first two lines replaced,
/// its later lines as they were.
pub open spec fn rewritten_bytes(contents: Seq<u8>, descriptor: nat) -> Seq<u8> {
    records(rewritten_lines(descriptor, kept(byte_lines(contents))))
}

fn push_all(out: &mut Vec<u8>, more: &Vec<u8>)
    ensures
        final(out)@ == old(out)@ + more@,
{
    let mut i: usize = 0;
    while i < more.len()
        invariant
            i <= more.len(),
            out@ == old(out)@ + more@.take(i as int),
        decreases more.len() - i,
    {
        out.push(more[i]);
        i += 1;
        assert(out@ =~= old(out)@ + more@.take(i as int));
    }
    assert(more@.take(more.len() as int) =~= more@);
}

/// The bytes of the new status file: the two lines that the bridge writes,
/// then the lines that were kept, already encoded.
pub fn assemble_dropfile(descriptor: u64, kept: &Vec<Vec<u8>>) -> (bytes: Vec<u8>)
    ensures
        bytes@ == records(rewritten_lines(descriptor as nat, kept.deep_view())),
{
    let ghost all = rewritten_lines(descriptor as nat, kept.deep_view());
    let mut bytes: Vec<u8> = Vec::new();
    bytes.push(COMM_TYPE_TELNET);
    bytes.push(0x0D);
    bytes.push(0x0A);
    push_decimal_bytes(&mut bytes, descriptor);
    bytes.push(0x0D);
    bytes.push(0x0A);
    proof {
        reveal_with_fuel(records, 3);
        let head = all.take(2);
        assert(head.drop_last() =~= seq![seq![COMM_TYPE_TELNET]]);
        assert(head.drop_last().drop_last() =~= Seq::<Seq<u8>>::empty());
        assert(records(head.drop_last()) =~= record(seq![COMM_TYPE_TELNET]));
        assert(bytes@ =~= records(head));
    }
    let mut i: usize = 0;
    while i < kept.len()
        invariant
            i <= kept.len(),
            all == rewritten_lines(descriptor as nat, kept.deep_view()),
            bytes@ == records(all.take(2 + i)),
        decreases kept.len() - i,
    {
        proof {
            assert(all.take(2 + i + 1).drop_last() =~= all.take(2 + i));
            assert(all.take(2 + i + 1).last() == kept.deep_view()[i as int]);
            assert(kept.deep_view()[i as int] == kept[i as int]@);
        }
        push_all(&mut bytes, &kept[i]);
        bytes.push(0x0D);
        bytes.push(0x0A);
        assert(bytes@ =~= records(all.take(2 + i)) + record(kept[i as int]@));
        i += 1;
    }
    assert(all.take(2 + i) =~= all);
    bytes
}

/// The new status file for the text of an old one and a descriptor value.
/// Every line from the third on must be representable in code page 437: the
/// first that is not is named in the error, and no file is made of the rest.
pub fn render_dropfile(orig_contents: &str, descriptor: u64) -> (rendered: Result<
    Vec<u8>,
    DropfileError,
>)
    ensures
        rendered is Ok <==> forall|i: int|
            2 <= i < lines_of(orig_contents@).len() ==> representable(
                #[trigger] lines_of(orig_contents@)[i],
            ),
        rendered matches Ok(bytes) ==> bytes@ == rewritten_text(orig_contents@, descriptor as nat),
        rendered matches Err(error) ==> error matches DropfileError::Encoding { line } && 2 <= line
            < lines_of(orig_contents@).len() && !representable(lines_of(orig_contents@)[line as int])
            && forall|i: int|
            2 <= i < line ==> representable(#[trigger] lines_of(orig_contents@)[i]),
{
    let found = lines(orig_contents);
    let ghost all = lines_of(orig_contents@);
    let mut copied: Vec<Vec<u8>> = Vec::new();
    let mut i: usize = 2;
    while i < found.len()
        invariant
            2 <= i,
            all == lines_of(orig_contents@),
            found.deep_view() == all,
            found.len() >= 2 ==> i <= found.len(),
            found.len() >= 2 ==> copied.len() == i - 2,
            found.len() < 2 ==> copied.len() == 0,
            forall|j: int| 2 <= j < i && j < all.len() ==> representable(#[trigger] all[j]),
            forall|j: int| 2 <= j < i && j < all.len() ==> copied[j - 2]@ == encoded(#[trigger] all[j]),
        decreases found.len() - i,
    {
        assert(all[i as int] == found[i as int]@);
        match encode(found[i].as_str()) {
            Some(bytes) => {
                copied.push(bytes);
            },
            None => {
                return Err(DropfileError::Encoding { line: i });
            },
        }
        i += 1;
    }
    let bytes = assemble_dropfile(descriptor, &copied);
    proof {
        let wanted = kept(all).map_values(|line: Seq<char>| encoded(line));
        assert(copied.deep_view().len() == wanted.len());
        assert forall|j: int| 0 <= j < wanted.len() implies copied.deep_view()[j] == wanted[j] by {
            assert(copied[j]@ == encoded(all[j + 2]));
        }
        assert(copied.deep_view() =~= wanted);
    }
    Ok(bytes)
}

/// The texts that lines of legacy bytes stand for.
pub open spec fn decoded_lines(lines: Seq<Seq<u8>>) -> Seq<Seq<char>> {
    lines.map_values(|line: Seq<u8>| decoded(line))
}

/// Decoding keeps the lines: the lines of the decoded text are the decoded
/// lines of the bytes, and every line of faithful bytes is faithful.
pub proof fn lemma_lines_of_decoded(bytes: Seq<u8>)
    requires
        faithful(bytes),
    ensures
        lines_of(decoded(bytes)) == decoded_lines(byte_lines(bytes)),
        forall|k: int| 0 <= k < byte_lines(bytes).len() ==> faithful(#[trigger] byte_lines(bytes)[k]),
{
    let text = decoded(bytes);
    let bp = split_on(bytes, 0x0Au8);
    let tp = split_on(text, '\n');
    assert forall|i: int| 0 <= i < bytes.len() implies (decoder()(#[trigger] bytes[i]) == '\n'
        <==> bytes[i] == 0x0Au8) by {
        assert(faithful_byte(bytes[i]));
    }
    lemma_split_mapped(bytes, 0x0Au8, decoder(), '\n');
    lemma_split_join(bytes, 0x0Au8);
    lemma_split_within(bytes, 0x0Au8, |byte: u8| faithful_byte(byte));
    assert(tp.len() == bp.len());
    assert forall|k: int| 0 <= k < bp.len() implies #[trigger] tp[k] == decoded(bp[k]) && faithful(
        bp[k],
    ) by {
        assert forall|j: int| 0 <= j < bp[k].len() implies faithful_byte(#[trigger] bp[k][j]) by {
            assert((|byte: u8| faithful_byte(byte))(bp[k][j]));
        }
    }
    let lines = byte_lines(bytes);
    let texts = lines_of(text);
    assert(texts.len() == lines.len()) by {
        assert(tp.last() == decoded(bp.last()));
    }
    assert forall|k: int| 0 <= k < lines.len() implies #[trigger] texts[k] == decoded(lines[k])
        && faithful(lines[k]) by {
        assert(tp[k] == decoded(bp[k]));
        if k < bp.len() - 1 {
            let piece = bp[k];
            if piece.len() > 0 {
                assert(faithful_byte(piece[piece.len() - 1]));
                assert(tp[k].last() == decoder()(piece.last()));
                assert(decoded(piece).drop_last() =~= decoded(piece.drop_last()));
            }
            assert(texts[k] == without_ending(tp[k], '\r'));
            assert(lines[k] == without_ending(piece, 0x0Du8));
            assert forall|j: int| 0 <= j < lines[k].len() implies faithful_byte(
                #[trigger] lines[k][j],
            ) by {
                assert(lines[k][j] == piece[j]);
            }
        }
    }
    assert(texts =~= decoded_lines(lines));
}

/// The pieces of a written file between its line feeds: each line with its
/// carriage return, and nothing after the last line feed.
pub open spec fn ended_pieces(lines: Seq<Seq<u8>>) -> Seq<Seq<u8>> {
    lines.map_values(|line: Seq<u8>| line.push(0x0Du8)).push(Seq::<u8>::empty())
}

proof fn lemma_records_joined(lines: Seq<Seq<u8>>)
    ensures
        records(lines) == join_with(ended_pieces(lines), 0x0Au8),
    decreases lines.len(),
{
    let pieces = ended_pieces(lines);
    if lines.len() == 0 {
        assert(pieces =~= seq![Seq::<u8>::empty()]);
    } else {
        let front = lines.drop_last();
        let last = lines.last();
        lemma_records_joined(front);
        let ended = lines.map_values(|line: Seq<u8>| line.push(0x0Du8));
        let ended_front = front.map_values(|line: Seq<u8>| line.push(0x0Du8));
        assert(ended =~= ended_front.push(last.push(0x0Du8)));
        lemma_join_push(ended, Seq::<u8>::empty(), 0x0Au8);
        if front.len() == 0 {
            assert(ended =~= seq![last.push(0x0Du8)]);
            assert(ended_pieces(front) =~= seq![Seq::<u8>::empty()]);
            assert(records(lines) =~= join_with(pieces, 0x0Au8));
        } else {
            lemma_join_push(ended_front, last.push(0x0Du8), 0x0Au8);
            lemma_join_push(ended_front, Seq::<u8>::empty(), 0x0Au8);
            assert(records(lines) =~= join_with(pieces, 0x0Au8));
        }
    }
}

/// Reading back what was written: a file that holds lines without a line
/// feed, each with its ending, has exactly these lines.
pub proof fn lemma_lines_of_records(lines: Seq<Seq<u8>>)
    requires
        free_of(lines, 0x0Au8),
    ensures
        byte_lines(records(lines)) == lines,
{
    let pieces = ended_pieces(lines);
    lemma_records_joined(lines);
    assert forall|i: int, j: int| 0 <= i < pieces.len() && 0 <= j < pieces[i].len() implies 
        #[trigger] pieces[i][j] != 0x0Au8 by {
        if j < lines[i].len() {
            assert(lines[i][j] != 0x0Au8);
        }
    }
    lemma_join_split(pieces, 0x0Au8);
    let ended = pieces.drop_last().map_values(|piece: Seq<u8>| without_ending(piece, 0x0Du8));
    assert(ended.len() == lines.len());
    assert forall|i: int| 0 <= i < lines.len() implies #[trigger] ended[i] == lines[i] by {
        assert(pieces[i] == lines[i].push(0x0Du8));
        assert(lines[i].push(0x0Du8).drop_last() =~= lines[i]);
    }
    assert(ended =~= lines);
}

/// No line of a file holds a line feed.
pub proof fn lemma_byte_lines_free(bytes: Seq<u8>)
    ensures
        free_of(byte_lines(bytes), 0x0Au8),
{
    lemma_split_join(bytes, 0x0Au8);
    let pieces = split_on(bytes, 0x0Au8);
    let lines = byte_lines(bytes);
    assert forall|i: int, j: int| 0 <= i < lines.len() && 0 <= j < lines[i].len() implies 
        #[trigger] lines[i][j] != 0x0Au8 by {
        assert(pieces[i][j] != 0x0Au8);
    }
}

/// Rewriting keeps the number of lines of a file that has at least two, makes
/// two lines of a shorter one, and leaves every line from the third on as it
/// was, byte for byte. The first line of the new file is the connection type
/// and the second is the descriptor in decimal.
pub proof fn lemma_rewrite_keeps_lines(contents: Seq<u8>, descriptor: nat)
    ensures
        byte_lines(rewritten_bytes(contents, descriptor)) == rewritten_lines(
            descriptor,
            kept(byte_lines(contents)),
        ),
        byte_lines(rewritten_bytes(contents, descriptor)).len() == if byte_lines(contents).len()
            >= 2 {
            byte_lines(contents).len()
        } else {
            2
        },
        byte_lines(rewritten_bytes(contents, descriptor))[0] == seq![COMM_TYPE_TELNET],
        byte_lines(rewritten_bytes(contents, descriptor))[1] == decimal_bytes(descriptor),
        forall|i: int|
            2 <= i < byte_lines(contents).len() ==> #[trigger] byte_lines(
                rewritten_bytes(contents, descriptor),
            )[i] == byte_lines(contents)[i],
{
    let old_lines = byte_lines(contents);
    let new_lines = rewritten_lines(descriptor, kept(old_lines));
    lemma_byte_lines_free(contents);
    lemma_decimal_digits(descriptor);
    assert forall|i: int, j: int| 0 <= i < new_lines.len() && 0 <= j < new_lines[i].len() implies 
        #[trigger] new_lines[i][j] != 0x0Au8 by {
        if i == 1 {
            assert('0' <= decimal(descriptor)[j] <= '9');
        } else if i >= 2 {
            assert(new_lines[i] == old_lines[i]);
            assert(old_lines[i][j] != 0x0Au8);
        }
    }
    lemma_lines_of_records(new_lines);
}

/// The new status file for the bytes of an old one and a descriptor value.
/// The first two lines are written anew. Every later line goes through the
/// code page and back and comes out as it was, so this cannot fail.
pub fn rewrite_dropfile(contents: Vec<u8>, descriptor: u64) -> (bytes: Vec<u8>)
    ensures
        bytes@ == rewritten_bytes(contents@, descriptor as nat),
{
    let ghost given = contents@;
    let text = decode(contents);
    proof {
        lemma_lines_of_decoded(given);
        let old_lines = byte_lines(given);
        let texts = lines_of(text@);
        assert forall|i: int| 0 <= i < texts.len() implies representable(#[trigger] texts[i])
            && encoded(texts[i]) == old_lines[i] by {
            assert(texts[i] == decoded(old_lines[i]));
            assert(faithful(old_lines[i]));
            lemma_decode_encode(old_lines[i]);
            lemma_encode_decode(texts[i]);
        }
        assert(kept(texts).map_values(|line: Seq<char>| encoded(line)) =~= kept(old_lines));
    }
    match render_dropfile(text.as_str(), descriptor) {
        Ok(bytes) => bytes,
        Err(_) => vstd::pervasive::unreached(),
    }
}

} // verus!
