//! Domain names: a sequence of labels, their wire form and their text form.

use vstd::prelude::*;
use crate::error::DecodeError;
use crate::error::EncodeError;
use crate::wire::cut;
use crate::wire::prepend;
use crate::wire::push_all;
use crate::wire::Decoded;

verus! {

/// A domain name, held as its labels in order. The root name has none.
///
/// Any sequence of labels can be held. What can travel and come back as it
/// is says `valid_name`.
#[derive(Debug, PartialEq, Eq)]
pub struct DomainName {
    pub labels: Vec<Vec<u8>>,
}

/// The labels of a vector as sequences of bytes.
pub open spec fn labels_view(labels: Seq<Vec<u8>>) -> Seq<Seq<u8>> {
    Seq::new(labels.len(), |i: int| labels[i]@)
}

impl View for DomainName {
    type V = Seq<Seq<u8>>;

    /// The labels as sequences of bytes.
    open spec fn view(&self) -> Seq<Seq<u8>> {
        labels_view(self.labels@)
    }
}

/// The least length byte that has both top bits set, which mark a
/// compression pointer.
pub const POINTER_MARK: u8 = 0xC0;

/// The longest label that a length byte can announce.
pub const MAX_LABEL_LEN: usize = 255;

/// The longest label whose length byte has neither top bit set.
pub const MAX_PLAIN_LABEL_LEN: usize = 63;

/// The longest wire form of a name, its closing zero byte included.
pub const MAX_NAME_LEN: usize = 255;

/// The byte that parts the labels of a name written as text.
pub const DOT: u8 = 0x2E;

/// The name that stands in `data` at offset `pos`, with the offset behind
/// its closing zero byte.
///
/// Each label is a length byte followed by that many bytes; a zero length
/// byte ends the name. A length byte with both top bits set is refused, and
/// a name that runs past the end of `data` is truncated.
pub open spec fn decode_name(data: Seq<u8>, pos: int) -> Decoded<Seq<Seq<u8>>>
    decreases data.len() - pos,
{
    if pos < 0 || pos >= data.len() {
        Err(DecodeError::Truncated)
    } else if data[pos] == 0 {
        Ok((Seq::empty(), pos + 1))
    } else if data[pos] >= POINTER_MARK {
        Err(DecodeError::UnsupportedCompression)
    } else if pos + 1 + data[pos] > data.len() {
        Err(DecodeError::Truncated)
    } else {
        prepend(
            seq![data.subrange(pos + 1, pos + 1 + data[pos])],
            decode_name(data, pos + 1 + data[pos]),
        )
    }
}

/// One label on the wire: its length in one byte, then its bytes.
pub open spec fn label_wire(label: Seq<u8>) -> Seq<u8> {
    seq![label.len() as u8] + label
}

/// The labels on the wire, one behind the other.
pub open spec fn labels_wire(labels: Seq<Seq<u8>>) -> Seq<u8>
    decreases labels.len(),
{
    if labels.len() == 0 {
        Seq::empty()
    } else {
        label_wire(labels.first()) + labels_wire(labels.drop_first())
    }
}

/// The wire form of a name: its labels, closed by a zero byte.
pub open spec fn name_wire(labels: Seq<Seq<u8>>) -> Seq<u8> {
    labels_wire(labels) + seq![0u8]
}

/// Whether some label is longer than a length byte can announce.
pub open spec fn has_long_label(labels: Seq<Seq<u8>>) -> bool {
    exists|i: int| 0 <= i < labels.len() && (#[trigger] labels[i]).len() > MAX_LABEL_LEN
}

/// The bytes that encoding a name gives, or the reason why it has none: a
/// label that is too long, else a wire form that is too long.
///
/// Every other name is written label by label as it is. Only a name that is
/// valid is promised to be read back: a reader takes the zero length byte
/// of an empty label for the end of the name, and a length byte of 192 or
/// more for a compression pointer.
pub open spec fn encode_name(labels: Seq<Seq<u8>>) -> Result<Seq<u8>, EncodeError> {
    if has_long_label(labels) {
        Err(EncodeError::LabelTooLong)
    } else if name_wire(labels).len() > MAX_NAME_LEN {
        Err(EncodeError::NameTooLong)
    } else {
        Ok(name_wire(labels))
    }
}

/// Whether a name can travel: each label holds 1 to 63 bytes and the wire
/// form holds at most 255.
pub open spec fn valid_name(labels: Seq<Seq<u8>>) -> bool {
    &&& forall|i: int|
        0 <= i < labels.len() ==> 1 <= (#[trigger] labels[i]).len() <= MAX_PLAIN_LABEL_LEN
    &&& name_wire(labels).len() <= MAX_NAME_LEN
}

/// The text form of a name: its labels with a dot between each two.
pub open spec fn join_labels(labels: Seq<Seq<u8>>) -> Seq<u8>
    decreases labels.len(),
{
    if labels.len() == 0 {
        Seq::empty()
    } else if labels.len() == 1 {
        labels[0]
    } else {
        join_labels(labels.drop_last()) + seq![DOT] + labels.last()
    }
}

/// The pieces into which the dots cut `text`: one more than there are dots,
/// each the bytes between two cuts. Text without a dot is one piece.
pub open spec fn split_dots(text: Seq<u8>) -> Seq<Seq<u8>>
    decreases text.len(),
{
    if text.len() == 0 {
        seq![Seq::empty()]
    } else {
        let before = split_dots(text.drop_last());
        if text.last() == DOT {
            before.push(Seq::empty())
        } else {
            before.drop_last().push(before.last().push(text.last()))
        }
    }
}

/// The labels of a name written as text: none for empty text, which names
/// the root, else the pieces into which the dots cut the text.
pub open spec fn labels_of_text(text: Seq<u8>) -> Seq<Seq<u8>> {
    if text.len() == 0 {
        Seq::empty()
    } else {
        split_dots(text)
    }
}

/// Whether no byte of `piece` is a dot.
pub open spec fn dot_free(piece: Seq<u8>) -> bool {
    forall|j: int| 0 <= j < piece.len() ==> piece[j] != DOT
}

/// Cutting text at its dots gives at least one piece, no piece holds a dot,
/// and the pieces joined by dots are the text.
pub proof fn lemma_join_of_split(text: Seq<u8>)
    ensures
        split_dots(text).len() >= 1,
        forall|i: int| 0 <= i < split_dots(text).len() ==> dot_free(#[trigger] split_dots(text)[i]),
        join_labels(split_dots(text)) == text,
    decreases text.len(),
{
    let pieces = split_dots(text);
    if text.len() == 0 {
        assert(join_labels(pieces) =~= text);
    } else {
        let before = split_dots(text.drop_last());
        let byte = text.last();
        lemma_join_of_split(text.drop_last());
        if byte == DOT {
            assert(pieces.drop_last() =~= before);
            assert(join_labels(pieces) =~= text);
        } else {
            let grown = before.last().push(byte);
            assert(dot_free(grown));
            if before.len() > 1 {
                assert(pieces.drop_last() =~= before.drop_last());
            }
            assert(join_labels(pieces) =~= join_labels(before).push(byte));
            assert(join_labels(pieces) =~= text);
        }
    }
}

/// Text without a dot is a single piece.
proof fn lemma_split_single(piece: Seq<u8>)
    requires
        dot_free(piece),
    ensures
        split_dots(piece) == seq![piece],
    decreases piece.len(),
{
    if piece.len() == 0 {
        assert(piece =~= Seq::empty());
    } else {
        let shorter = piece.drop_last();
        lemma_split_single(shorter);
        assert(shorter.push(piece.last()) =~= piece);
        assert(seq![shorter].drop_last() =~= Seq::<Seq<u8>>::empty());
        assert(seq![shorter].last() == shorter);
        assert(Seq::<Seq<u8>>::empty().push(piece) =~= seq![piece]);
    }
}

/// Text that ends in a dot and a piece without dots is cut into the pieces
/// of what stands before that dot, and that piece.
proof fn lemma_split_append(text: Seq<u8>, piece: Seq<u8>)
    requires
        dot_free(piece),
    ensures
        split_dots(text + seq![DOT] + piece) == split_dots(text).push(piece),
    decreases piece.len(),
{
    let whole = text + seq![DOT] + piece;
    if piece.len() == 0 {
        assert(whole.drop_last() =~= text);
        assert(piece =~= Seq::empty());
    } else {
        let shorter = piece.drop_last();
        lemma_split_append(text, shorter);
        assert(whole.drop_last() =~= text + seq![DOT] + shorter);
        assert(whole.last() == piece.last());
        assert(split_dots(text).push(shorter).drop_last() =~= split_dots(text));
        assert(shorter.push(piece.last()) =~= piece);
    }
}

/// Pieces without dots that are joined by dots are cut apart again at those
/// dots.
pub proof fn lemma_split_of_join(labels: Seq<Seq<u8>>)
    requires
        labels.len() >= 1,
        forall|i: int| 0 <= i < labels.len() ==> dot_free(#[trigger] labels[i]),
    ensures
        split_dots(join_labels(labels)) == labels,
    decreases labels.len(),
{
    if labels.len() == 1 {
        lemma_split_single(labels[0]);
        assert(seq![labels[0]] =~= labels);
    } else {
        let front = labels.drop_last();
        assert forall|i: int| 0 <= i < front.len() implies dot_free(#[trigger] front[i]) by {
            assert(front[i] == labels[i]);
        }
        lemma_split_of_join(front);
        lemma_split_append(join_labels(front), labels.last());
        assert(front.push(labels.last()) =~= labels);
    }
}

/// A name whose labels hold no dot, and which is not the single empty
/// label, is read back from its text form.
pub proof fn lemma_name_of_its_text(labels: Seq<Seq<u8>>)
    requires
        forall|i: int| 0 <= i < labels.len() ==> dot_free(#[trigger] labels[i]),
        labels.len() == 1 ==> labels[0].len() > 0,
    ensures
        labels_of_text(join_labels(labels)) == labels,
{
    if labels.len() > 0 {
        lemma_split_of_join(labels);
        if labels.len() > 1 {
            let joined = join_labels(labels);
            assert(joined == join_labels(labels.drop_last()) + seq![DOT] + labels.last());
            assert(joined.len() > 0);
        }
    }
}

/// The text form of the name that text writes is that text.
pub proof fn lemma_text_of_its_name(text: Seq<u8>)
    ensures
        join_labels(labels_of_text(text)) == text,
{
    lemma_join_of_split(text);
}

/// The wire form of labels in a row is the wire forms of its two parts in a
/// row.
pub(crate) proof fn lemma_labels_wire_concat(a: Seq<Seq<u8>>, b: Seq<Seq<u8>>)
    ensures
        labels_wire(a + b) == labels_wire(a) + labels_wire(b),
    decreases a.len(),
{
    if a.len() == 0 {
        assert(a + b =~= b);
    } else {
        lemma_labels_wire_concat(a.drop_first(), b);
        assert((a + b).drop_first() =~= a.drop_first() + b);
        assert((a + b).first() == a.first());
        assert(labels_wire(a + b) =~= labels_wire(a) + labels_wire(b));
    }
}

/// The wire form of a single label.
pub(crate) proof fn lemma_labels_wire_one(label: Seq<u8>)
    ensures
        labels_wire(seq![label]) == label_wire(label),
{
    let one = seq![label];
    assert(one.drop_first() =~= Seq::<Seq<u8>>::empty());
    assert(labels_wire(one.drop_first()) =~= Seq::<u8>::empty());
    assert(labels_wire(one) =~= label_wire(one.first()) + labels_wire(one.drop_first()));
    assert(labels_wire(one) =~= label_wire(label));
}

/// Decoding the wire form of a name whose labels are neither empty nor as
/// long as a compression pointer's mark gives the name back, whatever
/// stands before and behind it.
pub proof fn lemma_decode_name_wire(labels: Seq<Seq<u8>>, before: Seq<u8>, after: Seq<u8>)
    requires
        forall|i: int| 0 <= i < labels.len() ==> 1 <= (#[trigger] labels[i]).len() < POINTER_MARK,
    ensures
        decode_name(before + name_wire(labels) + after, before.len() as int) == Ok::<
            (Seq<Seq<u8>>, int),
            DecodeError,
        >((labels, before.len() as int + name_wire(labels).len())),
    decreases labels.len(),
{
    let data = before + name_wire(labels) + after;
    let pos = before.len() as int;
    if labels.len() == 0 {
        assert(labels =~= Seq::empty());
        assert(name_wire(labels) =~= seq![0u8]);
        assert(data[pos] == 0);
    } else {
        let first = labels.first();
        let rest = labels.drop_first();
        assert(first == labels[0]);
        assert(forall|i: int| 0 <= i < rest.len() ==> #[trigger] rest[i] == labels[i + 1]);
        let grown = before + label_wire(first);
        lemma_decode_name_wire(rest, grown, after);
        assert(name_wire(labels) =~= label_wire(first) + name_wire(rest));
        assert(data =~= grown + name_wire(rest) + after);
        assert(data[pos] == label_wire(first)[0]);
        assert(data[pos] == first.len());
        assert(data.subrange(pos + 1, pos + 1 + first.len()) =~= first);
        assert(seq![first] + rest =~= labels);
        assert(grown.len() == pos + 1 + first.len());
    }
}

/// What decoding finds is what stands there: a name that was decoded lies
/// within the buffer, its wire form is the bytes that were read, and none of
/// its labels is empty or as long as a compression pointer's mark.
pub proof fn lemma_decoded_name_is_wire(data: Seq<u8>, pos: int)
    requires
        decode_name(data, pos).is_ok(),
    ensures
        ({
            let (labels, end) = decode_name(data, pos).unwrap();
            &&& 0 <= pos < end <= data.len()
            &&& name_wire(labels) == data.subrange(pos, end)
            &&& forall|i: int|
                0 <= i < labels.len() ==> 1 <= (#[trigger] labels[i]).len() < POINTER_MARK
        }),
    decreases data.len() - pos,
{
    let (labels, end) = decode_name(data, pos).unwrap();
    if data[pos] == 0 {
        assert(name_wire(labels) =~= seq![0u8]);
        assert(data.subrange(pos, end) =~= seq![0u8]);
    } else {
        let next = pos + 1 + data[pos];
        lemma_decoded_name_is_wire(data, next);
        let label = data.subrange(pos + 1, next);
        let rest = decode_name(data, next).unwrap().0;
        assert(labels == seq![label] + rest);
        assert(labels.first() == label);
        assert(labels.drop_first() =~= rest);
        assert(label_wire(label) =~= data.subrange(pos, next));
        assert(name_wire(labels) =~= label_wire(label) + name_wire(rest));
        assert(name_wire(labels) =~= data.subrange(pos, end));
        assert forall|i: int| 0 <= i < labels.len() implies 1 <= (#[trigger] labels[i]).len()
            < POINTER_MARK by {
            if i > 0 {
                assert(labels[i] == rest[i - 1]);
            }
        }
    }
}

/// A name that was decoded is decoded alike from every buffer that is cut
/// off behind it, and a buffer that is cut off within it is truncated.
pub proof fn lemma_name_cut_short(data: Seq<u8>, pos: int, k: int)
    requires
        decode_name(data, pos).is_ok(),
        0 <= k <= data.len(),
    ensures
        decode_name(cut(data, k), pos) == if k >= decode_name(data, pos).unwrap().1 {
            decode_name(data, pos)
        } else {
            Err(DecodeError::Truncated)
        },
    decreases data.len() - pos,
{
    let short = cut(data, k);
    lemma_decoded_name_is_wire(data, pos);
    assert(short.len() == k);
    if pos < k {
        assert(short[pos] == data[pos]);
        if data[pos] != 0 {
            let next = pos + 1 + data[pos];
            assert(decode_name(data, next).is_ok());
            lemma_decoded_name_is_wire(data, next);
            if next <= k {
                lemma_name_cut_short(data, next, k);
                assert(short.subrange(pos + 1, next) =~= data.subrange(pos + 1, next));
            }
        }
    }
}

/// A name whose labels hold 1 to 63 bytes each and whose wire form holds at
/// most 255 bytes is encoded, and decoding those bytes gives the name back.
pub proof fn lemma_name_round_trip(labels: Seq<Seq<u8>>)
    requires
        valid_name(labels),
    ensures
        encode_name(labels) == Ok::<Seq<u8>, EncodeError>(name_wire(labels)),
        decode_name(name_wire(labels), 0) == Ok::<(Seq<Seq<u8>>, int), DecodeError>(
            (labels, name_wire(labels).len() as int),
        ),
{
    lemma_decode_name_wire(labels, Seq::empty(), Seq::empty());
    assert(Seq::<u8>::empty() + name_wire(labels) + Seq::<u8>::empty() =~= name_wire(labels));
}

impl DomainName {
    /// The name without labels.
    pub fn root() -> (r: DomainName)
        ensures
            r@ == Seq::<Seq<u8>>::empty(),
    {
        let r = DomainName { labels: Vec::new() };
        assert(r@ =~= Seq::<Seq<u8>>::empty());
        r
    }

    /// The name that `text` writes: its labels are the pieces between the
    /// dots of `text`, and empty text is the root name.
    pub fn from_text(text: &[u8]) -> (r: DomainName)
        ensures
            r@ == labels_of_text(text@),
    {
        if text.len() == 0 {
            return DomainName::root();
        }
        let mut labels: Vec<Vec<u8>> = Vec::new();
        let mut piece: Vec<u8> = Vec::new();
        let mut i: usize = 0;
        while i < text.len()
            invariant
                i <= text@.len(),
                split_dots(text@.take(i as int)) == labels_view(labels@).push(piece@),
            decreases text@.len() - i,
        {
            let byte: u8 = text[i];
            let ghost done = labels_view(labels@);
            proof {
                assert(text@.take(i + 1).drop_last() =~= text@.take(i as int));
                assert(text@.take(i + 1).last() == byte);
                assert(done.push(piece@).drop_last() =~= done);
            }
            if byte == DOT {
                proof {
                    assert(labels_view(labels@.push(piece)) =~= done.push(piece@));
                }
                labels.push(piece);
                piece = Vec::new();
            } else {
                piece.push(byte);
            }
            i += 1;
        }
        proof {
            assert(text@.take(i as int) =~= text@);
            assert(labels_view(labels@.push(piece)) =~= labels_view(labels@).push(piece@));
        }
        labels.push(piece);
        DomainName { labels }
    }

    /// The name written as text: its labels with a dot between each two.
    pub fn to_text(&self) -> (r: Vec<u8>)
        ensures
            r@ == join_labels(self@),
    {
        let mut text: Vec<u8> = Vec::new();
        let mut i: usize = 0;
        while i < self.labels.len()
            invariant
                i <= self.labels@.len(),
                text@ == join_labels(self@.take(i as int)),
            decreases self.labels@.len() - i,
        {
            proof {
                assert(self@.take(i + 1).drop_last() =~= self@.take(i as int));
                assert(self@.take(i + 1).last() == self.labels@[i as int]@);
                if i == 0 {
                    assert(Seq::<u8>::empty() + self.labels@[0]@ =~= self.labels@[0]@);
                }
            }
            if i > 0 {
                text.push(DOT);
            }
            push_all(&mut text, self.labels[i].as_slice());
            i += 1;
        }
        assert(self@.take(i as int) =~= self@);
        text
    }

    /// The wire form of the name: each label behind its length byte, then a
    /// zero byte.
    ///
    /// A label of more than 255 bytes is refused; if there is none, a wire
    /// form of more than 255 bytes is refused.
    pub fn to_bytes(&self) -> (r: Result<Vec<u8>, EncodeError>)
        ensures
            match encode_name(self@) {
                Ok(bytes) => r.is_ok() && r.unwrap()@ == bytes,
                Err(e) => r == Err::<Vec<u8>, EncodeError>(e),
            },
    {
        let count: usize = self.labels.len();
        let mut i: usize = 0;
        while i < count
            invariant
                i <= count == self.labels@.len(),
                forall|k: int| 0 <= k < i ==> (#[trigger] self@[k]).len() <= MAX_LABEL_LEN,
            decreases count - i,
        {
            if self.labels[i].len() > MAX_LABEL_LEN {
                assert(self@[i as int].len() > MAX_LABEL_LEN);
                return Err(EncodeError::LabelTooLong);
            }
            i += 1;
        }
        let mut v: Vec<u8> = Vec::new();
        i = 0;
        while i < count
            invariant
                i <= count == self.labels@.len(),
                !has_long_label(self@),
                v@ == labels_wire(self@.take(i as int)),
                v@.len() < MAX_NAME_LEN,
            decreases count - i,
        {
            let label: &Vec<u8> = &self.labels[i];
            proof {
                let done = self@.take(i as int);
                let grown = self@.take(i + 1);
                assert(self@[i as int] == label@);
                assert(grown =~= done + seq![label@]);
                assert(self@ =~= grown + self@.skip(i + 1));
                lemma_labels_wire_concat(done, seq![label@]);
                lemma_labels_wire_concat(grown, self@.skip(i + 1));
                lemma_labels_wire_one(label@);
            }
            if label.len() + 1 >= MAX_NAME_LEN - v.len() {
                return Err(EncodeError::NameTooLong);
            }
            v.push(label.len() as u8);
            push_all(&mut v, label.as_slice());
            i += 1;
        }
        assert(self@.take(count as int) =~= self@);
        v.push(0);
        Ok(v)
    }

    /// The wire form of the name, as `to_bytes` gives it.
    pub fn into_bytes(self) -> (r: Result<Vec<u8>, EncodeError>)
        ensures
            match encode_name(self@) {
                Ok(bytes) => r.is_ok() && r.unwrap()@ == bytes,
                Err(e) => r == Err::<Vec<u8>, EncodeError>(e),
            },
    {
        self.to_bytes()
    }
}

impl Clone for DomainName {
    /// A name with the same labels.
    fn clone(&self) -> (r: DomainName)
        ensures
            r@ == self@,
    {
        let mut labels: Vec<Vec<u8>> = Vec::new();
        let mut i: usize = 0;
        while i < self.labels.len()
            invariant
                i <= self.labels@.len(),
                labels@.len() == i,
                forall|k: int| 0 <= k < i ==> labels@[k]@ == self.labels@[k]@,
            decreases self.labels@.len() - i,
        {
            labels.push(self.labels[i].clone());
            i += 1;
        }
        let r = DomainName { labels };
        assert(r@ =~= self@);
        r
    }
}

} // verus!
