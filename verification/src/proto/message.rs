//! The messages of the protocol: a closed union, one tag for each
//! operation, and the records that the messages carry.

use vstd::prelude::*;
use vstd::utf8::encode_utf8;
use crate::proto::de::{
    lemma_parse_bytes_cut, lemma_parse_bytes_exact, lemma_parse_bytes_wire,
    lemma_parse_string_cut, lemma_parse_string_exact, lemma_parse_string_wire,
    lemma_parse_u32_cut, lemma_parse_u32_exact, lemma_parse_u32_wire, lemma_tail_skip,
    parse_bytes, parse_string, parse_u32, parse_u8, read_bytes, read_string, read_u32, read_u8,
    tail,
};
use crate::proto::error::{ProtoError, ProtoResult};
use crate::proto::ser::{
    bytes_wire, string_wire, u32_wire, write_bytes, write_string, write_u32, write_u8,
};
use crate::proto::wire::{decode, Wire};

verus! {

/// A key that the agent holds, as it is listed: the key in its encoded
/// form, which is carried as it is and not read again, and a label.
#[derive(Debug, Clone, PartialEq, Eq)]
pub struct Identity {
    pub pubkey_blob: Vec<u8>,
    pub comment: String,
}

/// A request to sign `data` with the key that `pubkey_blob` encodes.
/// `flags` is a set of bits that hint at how to sign.
#[derive(Debug, Clone, PartialEq, Eq)]
pub struct SignRequest {
    pub pubkey_blob: Vec<u8>,
    pub data: Vec<u8>,
    pub flags: u32,
}

/// A listed key as a mathematical value.
#[verifier::ext_equal]
pub struct IdentityView {
    pub pubkey_blob: Seq<u8>,
    pub comment: Seq<char>,
}

/// A signing request as a mathematical value.
#[verifier::ext_equal]
pub struct SignRequestView {
    pub pubkey_blob: Seq<u8>,
    pub data: Seq<u8>,
    pub flags: u32,
}

impl View for Identity {
    type V = IdentityView;

    open spec fn view(&self) -> IdentityView {
        IdentityView { pubkey_blob: self.pubkey_blob@, comment: self.comment@ }
    }
}

impl View for SignRequest {
    type V = SignRequestView;

    open spec fn view(&self) -> SignRequestView {
        SignRequestView { pubkey_blob: self.pubkey_blob@, data: self.data@, flags: self.flags }
    }
}

/// A listed key on the wire: the key as a byte string, then the label as a
/// text string.
impl Wire for Identity {
    open spec fn encodable(value: IdentityView) -> bool {
        &&& value.pubkey_blob.len() <= u32::MAX
        &&& encode_utf8(value.comment).len() <= u32::MAX
    }

    open spec fn encoding(value: IdentityView) -> Seq<u8> {
        bytes_wire(value.pubkey_blob) + string_wire(value.comment)
    }

    open spec fn parse(bytes: Seq<u8>) -> ProtoResult<(IdentityView, nat)> {
        match parse_bytes(bytes) {
            Err(e) => Err(e),
            Ok((pubkey_blob, n1)) => match parse_string(bytes.skip(n1 as int)) {
                Err(e) => Err(e),
                Ok((comment, n2)) => Ok((IdentityView { pubkey_blob, comment }, n1 + n2)),
            },
        }
    }

    proof fn lemma_parse_encoding(value: IdentityView, rest: Seq<u8>) {
        let a = bytes_wire(value.pubkey_blob);
        let b = string_wire(value.comment);
        assert((a + b) + rest =~= a + (b + rest));
        lemma_parse_bytes_wire(value.pubkey_blob, b + rest);
        assert((a + (b + rest)).skip(a.len() as int) =~= b + rest);
        lemma_parse_string_wire(value.comment, rest);
    }

    proof fn lemma_parse_cut(value: IdentityView, kept: int) {
        let a = bytes_wire(value.pubkey_blob);
        let b = string_wire(value.comment);
        if kept < a.len() {
            assert((a + b).take(kept) =~= a.take(kept));
            lemma_parse_bytes_cut(value.pubkey_blob, kept);
        } else {
            let left = b.take(kept - a.len());
            assert((a + b).take(kept) =~= a + left);
            lemma_parse_bytes_wire(value.pubkey_blob, left);
            assert((a + left).skip(a.len() as int) =~= left);
            lemma_parse_string_cut(value.comment, kept - a.len());
        }
    }

    proof fn lemma_parse_exact(bytes: Seq<u8>) {
        if let Ok((value, taken)) = Self::parse(bytes) {
            let n1 = parse_bytes(bytes)->Ok_0.1;
            lemma_parse_bytes_exact(bytes);
            lemma_parse_string_exact(bytes.skip(n1 as int));
            assert(Self::encoding(value) =~= bytes.take(taken as int));
        }
    }

    fn is_encodable(&self) -> (fits: bool) {
        self.pubkey_blob.len() <= u32::MAX as usize && self.comment.as_str().as_bytes().len()
            <= u32::MAX as usize
    }

    fn write_fields(&self, out: &mut Vec<u8>) {
        write_bytes(self.pubkey_blob.as_slice(), out);
        write_string(self.comment.as_str(), out);
        assert(out@ =~= old(out)@ + Self::encoding(self@));
    }

    fn read_fields(buffer: &[u8], offset: usize) -> (r: ProtoResult<(Identity, usize)>) {
        let (pubkey_blob, p1) = match read_bytes(buffer, offset) {
            Ok(field) => field,
            Err(e) => {
                return Err(e);
            },
        };
        proof {
            lemma_tail_skip(buffer@, offset as int, p1 - offset);
        }
        let (comment, p2) = match read_string(buffer, p1) {
            Ok(field) => field,
            Err(e) => {
                return Err(e);
            },
        };
        Ok((Identity { pubkey_blob, comment }, p2))
    }
}

/// A signing request on the wire: the key and the data as byte strings,
/// then the flags as a 32-bit integer.
impl Wire for SignRequest {
    open spec fn encodable(value: SignRequestView) -> bool {
        &&& value.pubkey_blob.len() <= u32::MAX
        &&& value.data.len() <= u32::MAX
    }

    open spec fn encoding(value: SignRequestView) -> Seq<u8> {
        bytes_wire(value.pubkey_blob) + bytes_wire(value.data) + u32_wire(value.flags)
    }

    open spec fn parse(bytes: Seq<u8>) -> ProtoResult<(SignRequestView, nat)> {
        match parse_bytes(bytes) {
            Err(e) => Err(e),
            Ok((pubkey_blob, n1)) => match parse_bytes(bytes.skip(n1 as int)) {
                Err(e) => Err(e),
                Ok((data, n2)) => match parse_u32(bytes.skip(n1 as int).skip(n2 as int)) {
                    Err(e) => Err(e),
                    Ok((flags, n3)) => Ok(
                        (SignRequestView { pubkey_blob, data, flags }, n1 + n2 + n3),
                    ),
                },
            },
        }
    }

    proof fn lemma_parse_encoding(value: SignRequestView, rest: Seq<u8>) {
        let a = bytes_wire(value.pubkey_blob);
        let b = bytes_wire(value.data);
        let c = u32_wire(value.flags);
        let whole = (a + b + c) + rest;
        assert(whole =~= a + (b + (c + rest)));
        lemma_parse_bytes_wire(value.pubkey_blob, b + (c + rest));
        assert(whole.skip(a.len() as int) =~= b + (c + rest));
        lemma_parse_bytes_wire(value.data, c + rest);
        assert((b + (c + rest)).skip(b.len() as int) =~= c + rest);
        lemma_parse_u32_wire(value.flags, rest);
    }

    proof fn lemma_parse_cut(value: SignRequestView, kept: int) {
        let a = bytes_wire(value.pubkey_blob);
        let b = bytes_wire(value.data);
        let c = u32_wire(value.flags);
        let cut = (a + b + c).take(kept);
        if kept < a.len() {
            assert(cut =~= a.take(kept));
            lemma_parse_bytes_cut(value.pubkey_blob, kept);
        } else if kept < a.len() + b.len() {
            let left = b.take(kept - a.len());
            assert(cut =~= a + left);
            lemma_parse_bytes_wire(value.pubkey_blob, left);
            assert(cut.skip(a.len() as int) =~= left);
            lemma_parse_bytes_cut(value.data, kept - a.len());
        } else {
            let left = c.take(kept - a.len() - b.len());
            assert(cut =~= a + (b + left));
            lemma_parse_bytes_wire(value.pubkey_blob, b + left);
            assert(cut.skip(a.len() as int) =~= b + left);
            lemma_parse_bytes_wire(value.data, left);
            assert((b + left).skip(b.len() as int) =~= left);
            lemma_parse_u32_cut(value.flags, kept - a.len() - b.len());
        }
    }

    proof fn lemma_parse_exact(bytes: Seq<u8>) {
        if let Ok((value, taken)) = Self::parse(bytes) {
            let n1 = parse_bytes(bytes)->Ok_0.1;
            let n2 = parse_bytes(bytes.skip(n1 as int))->Ok_0.1;
            lemma_parse_bytes_exact(bytes);
            lemma_parse_bytes_exact(bytes.skip(n1 as int));
            lemma_parse_u32_exact(bytes.skip(n1 as int).skip(n2 as int));
            assert(Self::encoding(value) =~= bytes.take(taken as int));
        }
    }

    fn is_encodable(&self) -> (fits: bool) {
        self.pubkey_blob.len() <= u32::MAX as usize && self.data.len() <= u32::MAX as usize
    }

    fn write_fields(&self, out: &mut Vec<u8>) {
        write_bytes(self.pubkey_blob.as_slice(), out);
        write_bytes(self.data.as_slice(), out);
        write_u32(self.flags, out);
        assert(out@ =~= old(out)@ + Self::encoding(self@));
    }

    fn read_fields(buffer: &[u8], offset: usize) -> (r: ProtoResult<(SignRequest, usize)>) {
        let (pubkey_blob, p1) = match read_bytes(buffer, offset) {
            Ok(field) => field,
            Err(e) => {
                return Err(e);
            },
        };
        proof {
            lemma_tail_skip(buffer@, offset as int, p1 - offset);
        }
        let (data, p2) = match read_bytes(buffer, p1) {
            Ok(field) => field,
            Err(e) => {
                return Err(e);
            },
        };
        proof {
            lemma_tail_skip(buffer@, p1 as int, p2 - p1);
        }
        let (flags, p3) = match read_u32(buffer, p2) {
            Ok(field) => field,
            Err(e) => {
                return Err(e);
            },
        };
        Ok((SignRequest { pubkey_blob, data, flags }, p3))
    }
}

/// The tag of the acknowledgement that carries nothing.
pub const SUCCESS_TAG: u8 = 6;

/// The tag of the answer that lists the agent's keys.
pub const IDENTITIES_ANSWER_TAG: u8 = 12;

/// The tag of a request to sign.
pub const SIGN_REQUEST_TAG: u8 = 13;

/// The tag of the answer to a request to sign.
pub const SIGN_RESPONSE_TAG: u8 = 14;

/// Whether `tag` is the tag of a message. A message starts with one byte
/// that says which operation it is; the four numbers above are this
/// library's assignment, and none of them will ever stand for another
/// shape of message.
pub open spec fn is_message_tag(tag: u8) -> bool {
    ||| tag == SUCCESS_TAG
    ||| tag == IDENTITIES_ANSWER_TAG
    ||| tag == SIGN_REQUEST_TAG
    ||| tag == SIGN_RESPONSE_TAG
}

/// A message of the protocol.
#[derive(Debug, Clone, PartialEq, Eq)]
pub enum Message {
    /// Sign these data with this key.
    SignRequest(SignRequest),
    /// The signature that was asked for, already encoded. The message
    /// carries it as a byte string and knows nothing of what is inside:
    /// whoever receives it decodes those bytes in a second step.
    SignResponse(Vec<u8>),
    /// Done; nothing more to say.
    Success,
    /// The keys that the agent holds, in the order in which it lists them.
    IdentitiesAnswer(Vec<Identity>),
}

/// A message as a mathematical value.
#[verifier::ext_equal]
pub enum MessageView {
    SignRequest(SignRequestView),
    SignResponse(Seq<u8>),
    Success,
    IdentitiesAnswer(Seq<IdentityView>),
}

/// The listed keys as mathematical values, in their order.
pub open spec fn identities_view(identities: Seq<Identity>) -> Seq<IdentityView> {
    identities.map_values(|identity: Identity| identity@)
}

impl View for Message {
    type V = MessageView;

    open spec fn view(&self) -> MessageView {
        match self {
            Message::SignRequest(request) => MessageView::SignRequest(request@),
            Message::SignResponse(blob) => MessageView::SignResponse(blob@),
            Message::Success => MessageView::Success,
            Message::IdentitiesAnswer(identities) => MessageView::IdentitiesAnswer(
                identities_view(identities@),
            ),
        }
    }
}

/// Whether every key of a list can be written.
pub open spec fn identities_encodable(identities: Seq<IdentityView>) -> bool {
    forall|i: int| 0 <= i < identities.len() ==> Identity::encodable(#[trigger] identities[i])
}

/// A list of keys on the wire: one after the other, in order, with nothing
/// between them.
pub open spec fn identities_wire(identities: Seq<IdentityView>) -> Seq<u8>
    decreases identities.len(),
{
    if identities.len() == 0 {
        Seq::empty()
    } else {
        Identity::encoding(identities[0]) + identities_wire(identities.drop_first())
    }
}

/// Reading `count` keys, one after the other.
pub open spec fn parse_identities(bytes: Seq<u8>, count: nat) -> ProtoResult<
    (Seq<IdentityView>, nat),
>
    decreases count,
{
    if count == 0 {
        Ok((Seq::empty(), 0))
    } else {
        match Identity::parse(bytes) {
            Err(e) => Err(e),
            Ok((first, n1)) => match parse_identities(bytes.skip(n1 as int), (count - 1) as nat) {
                Err(e) => Err(e),
                Ok((others, n2)) => Ok((seq![first] + others, n1 + n2)),
            },
        }
    }
}

/// The result of reading a list, once `read` keys that took `taken` bytes
/// have been read and `left` is what reading the others gives.
pub open spec fn after_reading(
    read: Seq<IdentityView>,
    taken: nat,
    left: ProtoResult<(Seq<IdentityView>, nat)>,
) -> ProtoResult<(Seq<IdentityView>, nat)> {
    match left {
        Err(e) => Err(e),
        Ok((others, more)) => Ok((read + others, taken + more)),
    }
}

/// A list with one more key at its end is written as the list, then the
/// key.
pub proof fn lemma_identities_wire_push(identities: Seq<IdentityView>, last: IdentityView)
    ensures
        identities_wire(identities.push(last)) == identities_wire(identities) + Identity::encoding(
            last,
        ),
    decreases identities.len(),
{
    let longer = identities.push(last);
    if identities.len() == 0 {
        let none = Seq::<IdentityView>::empty();
        assert(longer.drop_first() =~= none);
        assert(identities_wire(none) =~= Seq::<u8>::empty());
        assert(identities_wire(longer) =~= Identity::encoding(last));
        assert(identities_wire(identities) + Identity::encoding(last) =~= Identity::encoding(
            last,
        ));
    } else {
        assert(longer.drop_first() =~= identities.drop_first().push(last));
        lemma_identities_wire_push(identities.drop_first(), last);
        assert(identities_wire(longer) =~= identities_wire(identities) + Identity::encoding(
            last,
        ));
    }
}

/// A list of keys is read back from its encoding, whatever follows it.
pub proof fn lemma_parse_identities_wire(identities: Seq<IdentityView>, rest: Seq<u8>)
    requires
        identities_encodable(identities),
    ensures
        parse_identities(identities_wire(identities) + rest, identities.len()) == Ok::<
            _,
            ProtoError,
        >((identities, identities_wire(identities).len())),
    decreases identities.len(),
{
    if identities.len() == 0 {
        assert(identities =~= Seq::<IdentityView>::empty());
    } else {
        let first = Identity::encoding(identities[0]);
        let others = identities.drop_first();
        let whole = identities_wire(identities) + rest;
        assert(whole =~= first + (identities_wire(others) + rest));
        Identity::lemma_parse_encoding(identities[0], identities_wire(others) + rest);
        assert(whole.skip(first.len() as int) =~= identities_wire(others) + rest);
        lemma_parse_identities_wire(others, rest);
        assert(seq![identities[0]] + others =~= identities);
    }
}

/// A list of keys whose encoding was cut short reads as `Truncated`.
pub proof fn lemma_parse_identities_cut(identities: Seq<IdentityView>, kept: int)
    requires
        identities_encodable(identities),
        0 <= kept < identities_wire(identities).len(),
    ensures
        parse_identities(identities_wire(identities).take(kept), identities.len()) == Err::<
            (Seq<IdentityView>, nat),
            _,
        >(ProtoError::Truncated),
    decreases identities.len(),
{
    if identities.len() > 0 {
        let first = Identity::encoding(identities[0]);
        let others = identities.drop_first();
        let cut = identities_wire(identities).take(kept);
        if kept < first.len() {
            assert(cut =~= first.take(kept));
            Identity::lemma_parse_cut(identities[0], kept);
        } else {
            let left = identities_wire(others).take(kept - first.len());
            assert(cut =~= first + left);
            Identity::lemma_parse_encoding(identities[0], left);
            assert(cut.skip(first.len() as int) =~= left);
            lemma_parse_identities_cut(others, kept - first.len());
        }
    }
}

/// The bytes that a list of keys was read from are the bytes that writing
/// the list gives, and the list has as many keys as were asked for.
pub proof fn lemma_parse_identities_exact(bytes: Seq<u8>, count: nat)
    ensures
        parse_identities(bytes, count) matches Ok((identities, taken)) ==> {
            &&& identities.len() == count
            &&& taken <= bytes.len()
            &&& identities_encodable(identities)
            &&& identities_wire(identities) == bytes.take(taken as int)
        },
    decreases count,
{
    if let Ok((identities, taken)) = parse_identities(bytes, count) {
        if count == 0 {
            assert(identities_wire(identities) =~= bytes.take(0));
        } else {
            let (first, n1) = Identity::parse(bytes)->Ok_0;
            let others = parse_identities(bytes.skip(n1 as int), (count - 1) as nat)->Ok_0.0;
            Identity::lemma_parse_exact(bytes);
            lemma_parse_identities_exact(bytes.skip(n1 as int), (count - 1) as nat);
            assert(identities.drop_first() =~= others);
            assert(identities_wire(identities) =~= bytes.take(taken as int));
        }
    }
}

/// A message on the wire: its tag, then the fields that the tag stands
/// for. The list of keys is a 32-bit count followed by that many keys.
impl Wire for Message {
    open spec fn encodable(value: MessageView) -> bool {
        match value {
            MessageView::SignRequest(request) => SignRequest::encodable(request),
            MessageView::SignResponse(blob) => blob.len() <= u32::MAX,
            MessageView::Success => true,
            MessageView::IdentitiesAnswer(identities) => {
                &&& identities.len() <= u32::MAX
                &&& identities_encodable(identities)
            },
        }
    }

    open spec fn encoding(value: MessageView) -> Seq<u8> {
        match value {
            MessageView::SignRequest(request) => seq![SIGN_REQUEST_TAG] + SignRequest::encoding(
                request,
            ),
            MessageView::SignResponse(blob) => seq![SIGN_RESPONSE_TAG] + bytes_wire(blob),
            MessageView::Success => seq![SUCCESS_TAG],
            MessageView::IdentitiesAnswer(identities) => seq![IDENTITIES_ANSWER_TAG] + u32_wire(
                identities.len() as u32,
            ) + identities_wire(identities),
        }
    }

    open spec fn parse(bytes: Seq<u8>) -> ProtoResult<(MessageView, nat)> {
        match parse_u8(bytes) {
            Err(e) => Err(e),
            Ok((tag, _)) => {
                let fields = bytes.skip(1);
                if tag == SIGN_REQUEST_TAG {
                    match SignRequest::parse(fields) {
                        Err(e) => Err(e),
                        Ok((request, taken)) => Ok((MessageView::SignRequest(request), 1 + taken)),
                    }
                } else if tag == SIGN_RESPONSE_TAG {
                    match parse_bytes(fields) {
                        Err(e) => Err(e),
                        Ok((blob, taken)) => Ok((MessageView::SignResponse(blob), 1 + taken)),
                    }
                } else if tag == SUCCESS_TAG {
                    Ok((MessageView::Success, 1))
                } else if tag == IDENTITIES_ANSWER_TAG {
                    match parse_u32(fields) {
                        Err(e) => Err(e),
                        Ok((count, _)) => match parse_identities(fields.skip(4), count as nat) {
                            Err(e) => Err(e),
                            Ok((identities, taken)) => Ok(
                                (MessageView::IdentitiesAnswer(identities), 5 + taken),
                            ),
                        },
                    }
                } else {
                    Err(ProtoError::InvalidTag)
                }
            },
        }
    }

    proof fn lemma_parse_encoding(value: MessageView, rest: Seq<u8>) {
        match value {
            MessageView::SignRequest(request) => lemma_parse_sign_request(request, rest),
            MessageView::SignResponse(blob) => lemma_parse_sign_response(blob, rest),
            MessageView::Success => {},
            MessageView::IdentitiesAnswer(identities) => lemma_parse_identities_answer(
                identities,
                rest,
            ),
        }
    }

    proof fn lemma_parse_cut(value: MessageView, kept: int) {
        match value {
            MessageView::SignRequest(request) => lemma_cut_sign_request(request, kept),
            MessageView::SignResponse(blob) => lemma_cut_sign_response(blob, kept),
            MessageView::Success => {},
            MessageView::IdentitiesAnswer(identities) => lemma_cut_identities_answer(
                identities,
                kept,
            ),
        }
    }

    proof fn lemma_parse_exact(bytes: Seq<u8>) {
        if let Ok((value, taken)) = Self::parse(bytes) {
            let fields = bytes.skip(1);
            match value {
                MessageView::SignRequest(request) => {
                    SignRequest::lemma_parse_exact(fields);
                },
                MessageView::SignResponse(blob) => {
                    lemma_parse_bytes_exact(fields);
                },
                MessageView::Success => {},
                MessageView::IdentitiesAnswer(identities) => {
                    let count = parse_u32(fields)->Ok_0.0;
                    lemma_parse_u32_exact(fields);
                    lemma_parse_identities_exact(fields.skip(4), count as nat);
                },
            }
            assert(Self::encoding(value) =~= bytes.take(taken as int));
        }
    }

    fn is_encodable(&self) -> (fits: bool) {
        match self {
            Message::SignRequest(request) => request.is_encodable(),
            Message::SignResponse(blob) => blob.len() <= u32::MAX as usize,
            Message::Success => true,
            Message::IdentitiesAnswer(identities) => {
                identities.len() <= u32::MAX as usize && identities_fit(identities)
            },
        }
    }

    fn write_fields(&self, out: &mut Vec<u8>) {
        match self {
            Message::SignRequest(request) => {
                write_u8(SIGN_REQUEST_TAG, out);
                request.write_fields(out);
                assert(out@ =~= old(out)@ + Self::encoding(self@));
            },
            Message::SignResponse(blob) => {
                write_u8(SIGN_RESPONSE_TAG, out);
                write_bytes(blob.as_slice(), out);
                assert(out@ =~= old(out)@ + Self::encoding(self@));
            },
            Message::Success => {
                write_u8(SUCCESS_TAG, out);
            },
            Message::IdentitiesAnswer(identities) => {
                write_u8(IDENTITIES_ANSWER_TAG, out);
                write_u32(identities.len() as u32, out);
                write_identities(identities, out);
                assert(out@ =~= old(out)@ + Self::encoding(self@));
            },
        }
    }

    fn read_fields(buffer: &[u8], offset: usize) -> (r: ProtoResult<(Message, usize)>) {
        let (tag, start) = match read_u8(buffer, offset) {
            Ok(field) => field,
            Err(e) => {
                return Err(e);
            },
        };
        proof {
            lemma_tail_skip(buffer@, offset as int, 1);
        }
        if tag == SIGN_REQUEST_TAG {
            match SignRequest::read_fields(buffer, start) {
                Ok((request, next)) => Ok((Message::SignRequest(request), next)),
                Err(e) => Err(e),
            }
        } else if tag == SIGN_RESPONSE_TAG {
            match read_bytes(buffer, start) {
                Ok((blob, next)) => Ok((Message::SignResponse(blob), next)),
                Err(e) => Err(e),
            }
        } else if tag == SUCCESS_TAG {
            Ok((Message::Success, start))
        } else if tag == IDENTITIES_ANSWER_TAG {
            let (count, first) = match read_u32(buffer, start) {
                Ok(field) => field,
                Err(e) => {
                    return Err(e);
                },
            };
            proof {
                lemma_tail_skip(buffer@, start as int, 4);
            }
            match read_identities(buffer, first, count) {
                Ok((identities, next)) => Ok((Message::IdentitiesAnswer(identities), next)),
                Err(e) => Err(e),
            }
        } else {
            Err(ProtoError::InvalidTag)
        }
    }
}

/// A request to sign is read back from its encoding.
proof fn lemma_parse_sign_request(request: SignRequestView, rest: Seq<u8>)
    requires
        SignRequest::encodable(request),
    ensures
        Message::parse(Message::encoding(MessageView::SignRequest(request)) + rest) == Ok::<
            _,
            ProtoError,
        >(
            (
                MessageView::SignRequest(request),
                Message::encoding(MessageView::SignRequest(request)).len(),
            ),
        ),
{
    let whole = Message::encoding(MessageView::SignRequest(request)) + rest;
    assert(whole.skip(1) =~= SignRequest::encoding(request) + rest);
    SignRequest::lemma_parse_encoding(request, rest);
}

/// An encoded signature is read back from the message that carries it.
proof fn lemma_parse_sign_response(blob: Seq<u8>, rest: Seq<u8>)
    requires
        blob.len() <= u32::MAX,
    ensures
        Message::parse(Message::encoding(MessageView::SignResponse(blob)) + rest) == Ok::<
            _,
            ProtoError,
        >(
            (
                MessageView::SignResponse(blob),
                Message::encoding(MessageView::SignResponse(blob)).len(),
            ),
        ),
{
    let whole = Message::encoding(MessageView::SignResponse(blob)) + rest;
    assert(whole.skip(1) =~= bytes_wire(blob) + rest);
    lemma_parse_bytes_wire(blob, rest);
}

/// A list of keys is read back from the message that carries it.
proof fn lemma_parse_identities_answer(identities: Seq<IdentityView>, rest: Seq<u8>)
    requires
        identities.len() <= u32::MAX,
        identities_encodable(identities),
    ensures
        Message::parse(Message::encoding(MessageView::IdentitiesAnswer(identities)) + rest) == Ok::<
            _,
            ProtoError,
        >(
            (
                MessageView::IdentitiesAnswer(identities),
                Message::encoding(MessageView::IdentitiesAnswer(identities)).len(),
            ),
        ),
{
    let whole = Message::encoding(MessageView::IdentitiesAnswer(identities)) + rest;
    let count = u32_wire(identities.len() as u32);
    let list = identities_wire(identities);
    assert(whole.skip(1) =~= count + (list + rest));
    lemma_parse_u32_wire(identities.len() as u32, list + rest);
    assert(whole.skip(1).skip(4) =~= list + rest);
    lemma_parse_identities_wire(identities, rest);
}

/// A request to sign that was cut short reads as `Truncated`.
proof fn lemma_cut_sign_request(request: SignRequestView, kept: int)
    requires
        SignRequest::encodable(request),
        0 <= kept < Message::encoding(MessageView::SignRequest(request)).len(),
    ensures
        Message::parse(Message::encoding(MessageView::SignRequest(request)).take(kept)) == Err::<
            (MessageView, nat),
            _,
        >(ProtoError::Truncated),
{
    let cut = Message::encoding(MessageView::SignRequest(request)).take(kept);
    if kept >= 1 {
        assert(cut.skip(1) =~= SignRequest::encoding(request).take(kept - 1));
        SignRequest::lemma_parse_cut(request, kept - 1);
    }
}

/// A message with an encoded signature that was cut short reads as
/// `Truncated`.
proof fn lemma_cut_sign_response(blob: Seq<u8>, kept: int)
    requires
        blob.len() <= u32::MAX,
        0 <= kept < Message::encoding(MessageView::SignResponse(blob)).len(),
    ensures
        Message::parse(Message::encoding(MessageView::SignResponse(blob)).take(kept)) == Err::<
            (MessageView, nat),
            _,
        >(ProtoError::Truncated),
{
    let cut = Message::encoding(MessageView::SignResponse(blob)).take(kept);
    if kept >= 1 {
        assert(cut.skip(1) =~= bytes_wire(blob).take(kept - 1));
        lemma_parse_bytes_cut(blob, kept - 1);
    }
}

/// A message with a list of keys that was cut short reads as `Truncated`.
proof fn lemma_cut_identities_answer(identities: Seq<IdentityView>, kept: int)
    requires
        identities.len() <= u32::MAX,
        identities_encodable(identities),
        0 <= kept < Message::encoding(MessageView::IdentitiesAnswer(identities)).len(),
    ensures
        Message::parse(
            Message::encoding(MessageView::IdentitiesAnswer(identities)).take(kept),
        ) == Err::<(MessageView, nat), _>(ProtoError::Truncated),
{
    let cut = Message::encoding(MessageView::IdentitiesAnswer(identities)).take(kept);
    let count = u32_wire(identities.len() as u32);
    let list = identities_wire(identities);
    if 1 <= kept < 5 {
        assert(cut.skip(1) =~= count.take(kept - 1));
        lemma_parse_u32_cut(identities.len() as u32, kept - 1);
    } else if kept >= 5 {
        let left = list.take(kept - 5);
        assert(cut.skip(1) =~= count + left);
        lemma_parse_u32_wire(identities.len() as u32, left);
        assert(cut.skip(1).skip(4) =~= left);
        lemma_parse_identities_cut(identities, kept - 5);
    }
}

/// Tells whether every key of a list can be written.
pub fn identities_fit(identities: &Vec<Identity>) -> (fits: bool)
    ensures
        fits == identities_encodable(identities_view(identities@)),
{
    let ghost listed = identities_view(identities@);
    let mut i: usize = 0;
    while i < identities.len()
        invariant
            i <= identities.len(),
            listed == identities_view(identities@),
            forall|j: int| 0 <= j < i ==> Identity::encodable(#[trigger] listed[j]),
        decreases identities.len() - i,
    {
        if !identities[i].is_encodable() {
            assert(!Identity::encodable(listed[i as int]));
            return false;
        }
        i = i + 1;
    }
    true
}

/// Appends the keys of a list to `out`, one after the other.
pub fn write_identities(identities: &Vec<Identity>, out: &mut Vec<u8>)
    requires
        identities_encodable(identities_view(identities@)),
    ensures
        final(out)@ == old(out)@ + identities_wire(identities_view(identities@)),
{
    let ghost listed = identities_view(identities@);
    let mut i: usize = 0;
    assert(identities_wire(listed.take(0)) =~= Seq::<u8>::empty());
    assert(out@ =~= old(out)@ + identities_wire(listed.take(0)));
    while i < identities.len()
        invariant
            i <= identities.len(),
            listed == identities_view(identities@),
            identities_encodable(listed),
            out@ == old(out)@ + identities_wire(listed.take(i as int)),
        decreases identities.len() - i,
    {
        proof {
            lemma_identities_wire_push(listed.take(i as int), listed[i as int]);
            assert(listed.take(i as int).push(listed[i as int]) =~= listed.take(i + 1));
        }
        identities[i].write_fields(out);
        i = i + 1;
        assert(out@ =~= old(out)@ + identities_wire(listed.take(i as int)));
    }
    assert(listed.take(i as int) =~= listed);
}

/// Reads `count` keys at `offset`, one after the other.
///
/// The count comes from the wire and is not trusted: nothing is set aside
/// for keys that have not been read, and a count that promises more keys
/// than the buffer holds ends in `Truncated` at the first key that is not
/// there.
pub fn read_identities(buffer: &[u8], offset: usize, count: u32) -> (r: ProtoResult<
    (Vec<Identity>, usize),
>)
    ensures
        match r {
            Ok((identities, next)) => {
                &&& parse_identities(tail(buffer@, offset as int), count as nat) == Ok::<
                    _,
                    ProtoError,
                >((identities_view(identities@), (next - offset) as nat))
                &&& offset <= next
                &&& offset <= buffer@.len() ==> next <= buffer@.len()
            },
            Err(e) => parse_identities(tail(buffer@, offset as int), count as nat) == Err::<
                (Seq<IdentityView>, nat),
                _,
            >(e),
        },
{
    let ghost whole = parse_identities(tail(buffer@, offset as int), count as nat);
    let mut identities: Vec<Identity> = Vec::new();
    let mut position: usize = offset;
    let mut i: u32 = 0;
    proof {
        assert(identities_view(identities@) =~= Seq::<IdentityView>::empty());
        if let Ok((others, taken)) = whole {
            assert(Seq::<IdentityView>::empty() + others =~= others);
        }
    }
    while i < count
        invariant
            i <= count,
            offset <= position,
            offset <= buffer@.len() ==> position <= buffer@.len(),
            whole == parse_identities(tail(buffer@, offset as int), count as nat),
            whole == after_reading(
                identities_view(identities@),
                (position - offset) as nat,
                parse_identities(tail(buffer@, position as int), (count - i) as nat),
            ),
        decreases count - i,
    {
        let ghost before = identities_view(identities@);
        let (identity, next) = match Identity::read_fields(buffer, position) {
            Ok(read) => read,
            Err(e) => {
                return Err(e);
            },
        };
        proof {
            lemma_tail_skip(buffer@, position as int, next - position);
            let others = parse_identities(tail(buffer@, next as int), (count - i - 1) as nat);
            if let Ok((listed, taken)) = others {
                assert(before + (seq![identity@] + listed) =~= before.push(identity@) + listed);
            }
        }
        identities.push(identity);
        assert(identities_view(identities@) =~= before.push(identity@));
        position = next;
        i = i + 1;
    }
    assert(identities_view(identities@) + Seq::<IdentityView>::empty() =~= identities_view(
        identities@,
    ));
    Ok((identities, position))
}

/// A buffer that starts with a byte that is no message tag is rejected
/// with `InvalidTag`, whatever follows.
pub proof fn lemma_unknown_message_tag(bytes: Seq<u8>)
    requires
        bytes.len() > 0,
        !is_message_tag(bytes[0]),
    ensures
        decode::<Message>(bytes) == Err::<MessageView, _>(ProtoError::InvalidTag),
{
}

} // verus!
