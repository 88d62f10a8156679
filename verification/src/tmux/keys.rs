//! Sending keys, bytes and text to a pane.

use vstd::prelude::*;
use vstd::string::*;
use vstd::utf8::*;

use crate::bytes;
use crate::errors::{Error, ErrorView};
use crate::numbers;
use crate::outside;
use crate::text;
use crate::tmux::args;

verus! {

/// How many bytes of literal keys are sent at once at most.
pub const MAX_LITERAL_CHUNK_BYTES: usize = 4_000;

/// The chunks that are full, and the one that is being filled, once some characters are put
/// into chunks one after the other.
pub open spec fn chunking(keys: Seq<char>) -> (Seq<Seq<char>>, Seq<char>)
    decreases keys.len(),
{
    if keys.len() == 0 {
        (Seq::empty(), Seq::empty())
    } else {
        let (full, current) = chunking(keys.drop_last());
        let c = keys.last();
        if current.len() > 0 && encode_utf8(current).len() + encode_utf8(seq![c]).len()
            > MAX_LITERAL_CHUNK_BYTES {
            (full.push(current), seq![c])
        } else {
            (full, current.push(c))
        }
    }
}

/// The chunks in which literal keys are sent: each takes as many characters as go into it.
pub open spec fn chunks_of(keys: Seq<char>) -> Seq<Seq<char>> {
    let (full, current) = chunking(keys);
    if current.len() == 0 {
        full
    } else {
        full.push(current)
    }
}

/// The characters of chunks, one after the other.
pub open spec fn joined(chunks: Seq<Seq<char>>) -> Seq<char>
    decreases chunks.len(),
{
    if chunks.len() == 0 {
        Seq::empty()
    } else {
        joined(chunks.drop_last()) + chunks.last()
    }
}

/// Whether a chunk has something in it and is not too large.
pub open spec fn chunk_fits(chunk: Seq<char>) -> bool {
    0 < chunk.len() && encode_utf8(chunk).len() <= MAX_LITERAL_CHUNK_BYTES
}

/// Whether a chunk has no room for a character.
pub open spec fn chunk_full(chunk: Seq<char>, c: char) -> bool {
    encode_utf8(chunk).len() + encode_utf8(seq![c]).len() > MAX_LITERAL_CHUNK_BYTES
}

/// Whether chunks are a way to send keys at once as far as possible: one after the other they are
/// the keys, none is empty or too large, and none has room for the first character of the next.
pub open spec fn chunked(keys: Seq<char>, chunks: Seq<Seq<char>>) -> bool {
    &&& joined(chunks) == keys
    &&& forall|i: int| 0 <= i < chunks.len() ==> chunk_fits(#[trigger] chunks[i])
    &&& forall|i: int|
        0 <= i < chunks.len() - 1 ==> chunk_full(#[trigger] chunks[i], chunks[i + 1][0])
}

/// A character has one to four bytes.
proof fn lemma_char_width(c: char)
    ensures
        1 <= encode_utf8(seq![c]).len() <= 4,
{
    reveal_with_fuel(encode_utf8, 2);
    char_is_scalar(c);
    assert(encode_utf8(seq![c]) =~= encode_scalar(c as u32));
}

/// Keys are put into chunks as far as they go.
proof fn lemma_chunking(keys: Seq<char>)
    ensures
        keys.len() > 0 ==> chunking(keys).1.len() > 0 && chunked(
            keys,
            chunking(keys).0.push(chunking(keys).1),
        ),
        keys.len() == 0 ==> chunking(keys).0.len() == 0 && chunking(keys).1.len() == 0,
    decreases keys.len(),
{
    if keys.len() > 0 {
        let init = keys.drop_last();
        let c = keys.last();
        lemma_chunking(init);
        lemma_char_width(c);
        let (full, current) = chunking(init);
        let (now_full, now_current) = chunking(keys);
        let before = full.push(current);
        let all = now_full.push(now_current);
        bytes::lemma_encode_concat(current, seq![c]);
        assert(current + seq![c] =~= current.push(c));
        assert(init.push(c) =~= keys);
        assert(all.drop_last() =~= now_full);
        assert(before.drop_last() =~= full);
        if init.len() == 0 {
            assert(encode_utf8(current) =~= Seq::<u8>::empty());
            assert(joined(now_full) =~= Seq::<char>::empty());
            assert(joined(all) =~= keys);
        } else if chunk_full(current, c) {
            assert(now_full == before);
            assert(joined(all) =~= init.push(c));
            assert forall|i: int| 0 <= i < all.len() implies chunk_fits(#[trigger] all[i]) by {
                if i < before.len() {
                    assert(all[i] == before[i]);
                }
            }
            assert forall|i: int| 0 <= i < all.len() - 1 implies chunk_full(
                #[trigger] all[i],
                all[i + 1][0],
            ) by {
                assert(all[i] == before[i]);
                if i < before.len() - 1 {
                    assert(all[i + 1] == before[i + 1]);
                }
            }
        } else {
            assert(joined(all) =~= joined(full) + current.push(c));
            assert(joined(before) == joined(full) + current);
            assert(joined(all) =~= init.push(c));
            assert(chunk_fits(before[full.len() as int]));
            assert forall|i: int| 0 <= i < all.len() implies chunk_fits(#[trigger] all[i]) by {
                if i < full.len() {
                    assert(all[i] == before[i]);
                }
            }
            assert forall|i: int| 0 <= i < all.len() - 1 implies chunk_full(
                #[trigger] all[i],
                all[i + 1][0],
            ) by {
                assert(all[i] == before[i]);
                assert(all[i + 1][0] == before[i + 1][0]) by {
                    if i + 1 < full.len() {
                        assert(all[i + 1] == before[i + 1]);
                    }
                }
            }
        }
    }
}

/// Law: the chunks, one after the other, are the keys; none is empty, none is too large to be
/// sent at once, and none has room for the first character of the next one.
pub proof fn law_chunks(keys: Seq<char>)
    ensures
        chunked(keys, chunks_of(keys)),
        chunks_of(keys).len() == 0 <==> keys.len() == 0,
{
    lemma_chunking(keys);
    if keys.len() == 0 {
        assert(joined(chunks_of(keys)) =~= keys);
    }
}

/// Law: there is no other way to put keys into such chunks.
pub proof fn law_chunks_determined(keys: Seq<char>, chunks: Seq<Seq<char>>)
    requires
        chunked(keys, chunks),
    ensures
        chunks == chunks_of(keys),
    decreases keys.len(),
{
    lemma_chunking(keys);
    if chunks.len() == 0 {
        assert(chunks =~= chunks_of(keys));
    } else {
        let front = chunks.drop_last();
        let last = chunks.last();
        let c = last.last();
        let rest = last.drop_last();
        assert(chunk_fits(chunks[chunks.len() - 1]));
        let init = keys.drop_last();
        assert(keys.last() == c);
        assert(init =~= joined(front) + rest);
        assert(rest.push(c) =~= last);
        bytes::lemma_encode_concat(rest, seq![c]);
        assert(rest + seq![c] =~= last);
        lemma_chunking(init);
        if rest.len() == 0 {
            assert(init =~= joined(front));
            assert forall|i: int| 0 <= i < front.len() implies chunk_fits(
                #[trigger] front[i],
            ) by {
                assert(front[i] == chunks[i]);
            }
            assert forall|i: int| 0 <= i < front.len() - 1 implies chunk_full(
                #[trigger] front[i],
                front[i + 1][0],
            ) by {
                assert(front[i] == chunks[i] && front[i + 1] == chunks[i + 1]);
            }
            law_chunks_determined(init, front);
            if front.len() > 0 {
                let k = front.len() - 1;
                assert(chunk_full(chunks[k], chunks[k + 1][0]));
                assert(last[0] == c);
            }
            assert(last =~= seq![c]);
        } else {
            let shorter = front.push(rest);
            assert(shorter.drop_last() =~= front);
            assert forall|i: int| 0 <= i < shorter.len() implies chunk_fits(
                #[trigger] shorter[i],
            ) by {
                if i < front.len() {
                    assert(shorter[i] == chunks[i]);
                }
            }
            assert forall|i: int| 0 <= i < shorter.len() - 1 implies chunk_full(
                #[trigger] shorter[i],
                shorter[i + 1][0],
            ) by {
                assert(shorter[i] == chunks[i]);
                assert(shorter[i + 1][0] == chunks[i + 1][0]) by {
                    if i + 1 < front.len() {
                        assert(shorter[i + 1] == chunks[i + 1]);
                    }
                }
            }
            law_chunks_determined(init, shorter);
            let (full, current) = chunking(init);
            assert(full.push(current).drop_last() =~= full);
            assert(full == front && current == rest);
        }
        assert(front.push(last) =~= chunks);
    }
}

/// Law: keys that go into one chunk are sent at once.
pub proof fn law_single_chunk(keys: Seq<char>)
    requires
        chunk_fits(keys),
    ensures
        chunks_of(keys) == seq![keys],
{
    lemma_single_chunking(keys);
}

proof fn lemma_single_chunking(keys: Seq<char>)
    requires
        encode_utf8(keys).len() <= MAX_LITERAL_CHUNK_BYTES,
    ensures
        chunking(keys).0 == Seq::<Seq<char>>::empty(),
        chunking(keys).1 == keys,
    decreases keys.len(),
{
    if keys.len() > 0 {
        let init = keys.drop_last();
        let c = keys.last();
        bytes::lemma_encode_concat(init, seq![c]);
        assert(init + seq![c] =~= keys);
        lemma_single_chunking(init);
        assert(init.push(c) =~= keys);
    } else {
        assert(chunking(keys).1 =~= keys);
    }
}

/// Puts literal keys into chunks.
pub fn chunk_literal_payload(keys: &str) -> (chunks: Vec<String>)
    ensures
        text::texts(chunks@) == chunks_of(keys@),
        chunked(keys@, text::texts(chunks@)),
{
    let chars = text::chars_of(keys);
    let mut chunks: Vec<String> = Vec::new();
    let mut current = String::new();
    let mut size: usize = 0;
    let mut i: usize = 0;
    proof {
        assert(keys@.take(0) =~= Seq::<char>::empty());
        assert(text::texts(chunks@) =~= Seq::<Seq<char>>::empty());
        assert(current@ =~= Seq::<char>::empty());
    }
    while i < chars.len()
        invariant
            chars@ == keys@,
            i <= chars@.len(),
            chunking(keys@.take(i as int)) == (text::texts(chunks@), current@),
            size == encode_utf8(current@).len(),
            size <= MAX_LITERAL_CHUNK_BYTES,
        decreases chars@.len() - i,
    {
        let c = chars[i];
        let width = bytes::char_width(c);
        proof {
            assert(keys@.take(i + 1).drop_last() =~= keys@.take(i as int));
            assert(keys@.take(i + 1).last() == c);
            lemma_chunking(keys@.take(i + 1));
            bytes::lemma_encode_concat(current@, seq![c]);
            assert(current@ + seq![c] =~= current@.push(c));
        }
        if size > 0 && size + width > MAX_LITERAL_CHUNK_BYTES {
            text::push_text(&mut chunks, current.as_str());
            current = String::new();
            size = 0;
            proof {
                assert(current@.push(c) =~= seq![c]);
            }
        } else {
            proof {
                if size == 0 {
                    lemma_no_bytes(current@);
                }
            }
        }
        current.push(c);
        size += width;
        i += 1;
    }
    proof {
        assert(keys@.take(keys@.len() as int) =~= keys@);
        lemma_no_bytes(current@);
        law_chunks(keys@);
    }
    if size > 0 {
        text::push_text(&mut chunks, current.as_str());
    }
    chunks
}

/// Only the empty text has no bytes.
proof fn lemma_no_bytes(s: Seq<char>)
    ensures
        encode_utf8(s).len() == 0 <==> s.len() == 0,
{
    bytes::lemma_char_offset(s, 0, s.len() as int);
}

/// The contents of a list of argument lists.
pub open spec fn calls(list: Seq<Vec<String>>) -> Seq<Seq<Seq<char>>> {
    list.map_values(|call: Vec<String>| text::texts(call@))
}

/// The commands that send keys to a pane: literal ones chunk by chunk, and nothing for none;
/// others at once, and guarded, as they may begin with a dash.
pub open spec fn send_keys_calls(pane_id: Seq<char>, keys: Seq<char>, literal: bool) -> Seq<
    Seq<Seq<char>>,
> {
    if literal {
        chunks_of(keys).map_values(
            |chunk: Seq<char>| seq!["send-keys"@, "-t"@, pane_id, "-l"@, chunk],
        )
    } else {
        seq![args::guarded(seq!["send-keys"@, "-t"@, pane_id], keys)]
    }
}

/// Lists the commands that send keys to a pane.
pub fn send_keys_args(pane_id: &str, keys: &str, literal: bool) -> (list: Vec<Vec<String>>)
    ensures
        calls(list@) == send_keys_calls(pane_id@, keys@, literal),
{
    let ghost all = send_keys_calls(pane_id@, keys@, literal);
    let mut list: Vec<Vec<String>> = Vec::new();
    if literal {
        let chunks = chunk_literal_payload(keys);
        let mut i: usize = 0;
        while i < chunks.len()
            invariant
                literal,
                i <= chunks@.len(),
                text::texts(chunks@) == chunks_of(keys@),
                all == send_keys_calls(pane_id@, keys@, literal),
                calls(list@) == all.take(i as int),
            decreases chunks@.len() - i,
        {
            let parts = vec!["send-keys", "-t", pane_id, "-l", chunks[i].as_str()];
            proof {
                assert(text::texts(chunks@)[i as int] == chunks@[i as int]@);
                assert(args::strs(parts@) =~= seq![
                    "send-keys"@,
                    "-t"@,
                    pane_id@,
                    "-l"@,
                    chunks@[i as int]@,
                ]);
                assert(all[i as int] == args::strs(parts@));
            }
            let call = args::owned(parts);
            let ghost before = list@;
            list.push(call);
            proof {
                assert(calls(list@) =~= calls(before).push(text::texts(call@)));
                assert(all.take(i + 1) =~= all.take(i as int).push(all[i as int]));
            }
            i += 1;
        }
        proof {
            assert(all.len() == chunks@.len()) by {
                assert(text::texts(chunks@).len() == chunks@.len());
            }
            assert(all.take(all.len() as int) =~= all);
        }
    } else {
        let parts = vec!["send-keys", "-t", pane_id, "--", keys];
        proof {
            assert(args::strs(parts@) =~= args::guarded(
                seq!["send-keys"@, "-t"@, pane_id@],
                keys@,
            ));
        }
        list.push(args::owned(parts));
        proof {
            assert(calls(list@) =~= all);
        }
    }
    list
}

/// The tokens that words write, in two lower-case digits each, or the first word that is no
/// byte.
pub open spec fn hex_tokens(words: Seq<Seq<char>>) -> Result<Seq<Seq<char>>, Seq<char>>
    decreases words.len(),
{
    if words.len() == 0 {
        Ok(Seq::empty())
    } else {
        match hex_tokens(words.drop_last()) {
            Ok(before) => match numbers::hex_byte(words.last()) {
                Some(byte) => Ok(before.push(numbers::hex_text(byte))),
                None => Err(words.last()),
            },
            Err(word) => Err(word),
        }
    }
}

/// What a text of hexadecimal bytes stands for, or why it is refused.
pub open spec fn hex_outcome(hex: Seq<char>) -> Result<Seq<Seq<char>>, ErrorView> {
    match hex_tokens(text::words_of(hex)) {
        Ok(tokens) => if tokens.len() == 0 {
            Err(ErrorView::Tmux("no hex byte tokens provided"@))
        } else {
            Ok(tokens)
        },
        Err(word) => Err(
            ErrorView::Tmux(
                "invalid hex byte token: "@ + outside::debug_text(word) + " (expected 00-ff)"@,
            ),
        ),
    }
}

/// The first word that is no byte stays the first one, whatever follows.
proof fn lemma_hex_error(words: Seq<Seq<char>>, k: int)
    requires
        0 <= k <= words.len(),
        hex_tokens(words.take(k)) is Err,
    ensures
        hex_tokens(words) == hex_tokens(words.take(k)),
    decreases words.len(),
{
    if k == words.len() {
        assert(words.take(k) =~= words);
    } else {
        assert(words.drop_last().take(k) =~= words.take(k));
        lemma_hex_error(words.drop_last(), k);
    }
}

/// Parses a whitespace-separated hex string into byte tokens, validating each. Gives the
/// tokens in two lower-case digits each (e.g. "1b", "5b") or an error.
pub fn parse_hex_tokens(hex: &str) -> (r: Result<Vec<String>, Error>)
    ensures
        match r {
            Ok(tokens) => hex_outcome(hex@) == Ok::<Seq<Seq<char>>, ErrorView>(
                text::texts(tokens@),
            ),
            Err(error) => hex_outcome(hex@) == Err::<Seq<Seq<char>>, ErrorView>(error@),
        },
{
    let words = text::words(hex);
    let ghost all = text::words_of(hex@);
    let mut tokens: Vec<String> = Vec::new();
    let mut i: usize = 0;
    proof {
        assert(text::texts(tokens@) =~= Seq::<Seq<char>>::empty());
        assert(all.take(0) =~= Seq::<Seq<char>>::empty());
    }
    while i < words.len()
        invariant
            i <= words@.len(),
            all == text::words_of(hex@),
            all == text::texts(words@),
            hex_tokens(all.take(i as int)) == Ok::<Seq<Seq<char>>, Seq<char>>(
                text::texts(tokens@),
            ),
            tokens@.len() == i,
        decreases words@.len() - i,
    {
        let raw = words[i].as_str();
        proof {
            assert(all.take(i + 1).drop_last() =~= all.take(i as int));
            assert(all.take(i + 1).last() == raw@);
        }
        match numbers::parse_hex_byte(raw) {
            Some(byte) => {
                text::push_text(&mut tokens, numbers::hex_pair(byte).as_str());
                proof {
                    assert(text::texts(tokens@).len() == tokens@.len());
                }
            },
            None => {
                proof {
                    lemma_hex_error(all, i + 1);
                }
                let mut message = "invalid hex byte token: ".to_owned();
                message.append(outside::debug_quoted(raw).as_str());
                message.append(" (expected 00-ff)");
                return Err(Error::Tmux { message });
            },
        }
        i += 1;
    }
    proof {
        assert(all.take(all.len() as int) =~= all);
        assert(text::texts(tokens@).len() == tokens@.len());
    }
    if tokens.len() == 0 {
        return Err(Error::Tmux { message: "no hex byte tokens provided".to_owned() });
    }
    Ok(tokens)
}

/// Law: reading tokens again gives the same tokens.
pub proof fn law_hex_tokens_again(words: Seq<Seq<char>>)
    requires
        hex_tokens(words) is Ok,
    ensures
        hex_tokens(hex_tokens(words)->Ok_0) == hex_tokens(words),
        hex_tokens(words)->Ok_0.len() == words.len(),
    decreases words.len(),
{
    if words.len() > 0 {
        law_hex_tokens_again(words.drop_last());
        let byte = numbers::hex_byte(words.last())->0;
        lemma_hex_byte_range(words.last());
        numbers::law_hex_round_trip(byte);
        let tokens = hex_tokens(words)->Ok_0;
        assert(tokens.drop_last() =~= hex_tokens(words.drop_last())->Ok_0);
        assert(tokens.last() == numbers::hex_text(byte));
    } else {
        assert(hex_tokens(words)->Ok_0 =~= words);
    }
}

/// Two hexadecimal digits write a byte.
proof fn lemma_hex_byte_range(s: Seq<char>)
    ensures
        match numbers::hex_byte(s) {
            Some(byte) => byte < 256,
            None => true,
        },
{
}

/// Sends bytes to a pane, each written as one hexadecimal token.
pub fn send_keys_hex_args(pane_id: &str, hex: &str) -> (r: Result<Vec<String>, Error>)
    ensures
        match r {
            Ok(args) => {
                &&& hex_outcome(hex@) is Ok
                &&& text::texts(args@) == seq!["send-keys"@, "-t"@, pane_id@, "-H"@] + hex_outcome(
                    hex@,
                )->Ok_0
            },
            Err(error) => hex_outcome(hex@) == Err::<Seq<Seq<char>>, ErrorView>(error@),
        },
{
    match parse_hex_tokens(hex) {
        Ok(tokens) => {
            let parts = vec!["send-keys", "-t", pane_id, "-H"];
            proof {
                assert(args::strs(parts@) =~= seq!["send-keys"@, "-t"@, pane_id@, "-H"@]);
            }
            let mut list = args::owned(parts);
            text::push_all(&mut list, &tokens);
            Ok(list)
        },
        Err(error) => Err(error),
    }
}

/// The name of the buffer in which a text is put before it is pasted, for a given unique part.
pub open spec fn staging_name(unique: Seq<char>) -> Seq<char> {
    "__tmux_mcp_paste_"@ + unique
}

/// Makes up the name of the buffer in which a text is put before it is pasted.
pub fn staging_buffer() -> (name: String)
    ensures
        exists|unique: Seq<char>| #[trigger]
            outside::uuid_shape(unique) && name@ == staging_name(unique),
{
    let unique = outside::random_uuid();
    let mut name = "__tmux_mcp_paste_".to_owned();
    name.append(unique.as_str());
    proof {
        assert(outside::uuid_shape(unique@) && name@ == staging_name(unique@));
    }
    name
}

/// Law: keys that are sent literally go in chunks, one command after the other, each to the pane and
/// as it is; together the chunks are the keys. Keys that are not go in one command, where they may
/// begin with a dash.
pub proof fn law_send_keys(pane_id: Seq<char>, keys: Seq<char>)
    ensures
        send_keys_calls(pane_id, keys, false) == seq![
            seq!["send-keys"@, "-t"@, pane_id, "--"@, keys],
        ],
        ({
            let calls = send_keys_calls(pane_id, keys, true);
            &&& forall|i: int|
                0 <= i < calls.len() ==> {
                    let call = #[trigger] calls[i];
                    &&& call.len() == 5
                    &&& call[0] == "send-keys"@
                    &&& call[1] == "-t"@
                    &&& call[2] == pane_id
                    &&& call[3] == "-l"@
                    &&& 0 < call[4].len()
                    &&& encode_utf8(call[4]).len() <= 4_000
                }
            &&& joined(calls.map_values(|call: Seq<Seq<char>>| call[4])) == keys
        }),
{
    law_chunks(keys);
    let calls = send_keys_calls(pane_id, keys, true);
    let chunks = chunks_of(keys);
    assert(calls.map_values(|call: Seq<Seq<char>>| call[4]) =~= chunks);
    assert forall|i: int| 0 <= i < calls.len() implies chunk_fits((#[trigger] calls[i])[4]) by {
        assert(chunk_fits(chunks[i]));
    }
    assert(args::guarded(seq!["send-keys"@, "-t"@, pane_id], keys) =~= seq![
        "send-keys"@,
        "-t"@,
        pane_id,
        "--"@,
        keys,
    ]);
}

/// Law: the tokens of bytes are the words, one for one and in their order, each with the same value
/// in two digits. The words are refused exactly where one of them is no byte, and the first such
/// word is named.
pub proof fn law_hex_tokens(words: Seq<Seq<char>>)
    ensures
        match hex_tokens(words) {
            Ok(tokens) => {
                &&& tokens.len() == words.len()
                &&& forall|i: int|
                    0 <= i < words.len() ==> {
                        &&& (#[trigger] tokens[i]).len() == 2
                        &&& numbers::hex_byte(tokens[i]) == numbers::hex_byte(words[i])
                        &&& numbers::hex_byte(words[i]) is Some
                    }
            },
            Err(word) => exists|k: int|
                {
                    &&& 0 <= k < words.len()
                    &&& #[trigger] words[k] == word
                    &&& numbers::hex_byte(words[k]) is None
                    &&& forall|i: int|
                        0 <= i < k ==> numbers::hex_byte(#[trigger] words[i]) is Some
                },
        },
    decreases words.len(),
{
    if words.len() > 0 {
        let init = words.drop_last();
        law_hex_tokens(init);
        assert forall|i: int| 0 <= i < init.len() implies init[i] == #[trigger] words[i] by {}
        match hex_tokens(init) {
            Ok(before) => {
                let k = words.len() - 1;
                lemma_hex_byte_range(words[k]);
                assert forall|i: int| 0 <= i < init.len() implies numbers::hex_byte(
                    #[trigger] words[i],
                ) is Some by {
                    assert(before[i].len() == 2);
                }
                if let Some(byte) = numbers::hex_byte(words[k]) {
                    numbers::law_hex_round_trip(byte);
                    let tokens = before.push(numbers::hex_text(byte));
                    assert forall|i: int| 0 <= i < words.len() implies {
                        &&& (#[trigger] tokens[i]).len() == 2
                        &&& numbers::hex_byte(tokens[i]) == numbers::hex_byte(words[i])
                        &&& numbers::hex_byte(words[i]) is Some
                    } by {
                        if i < init.len() {
                            assert(tokens[i] == before[i]);
                        }
                    }
                } else {
                    assert(words[k] == words.last());
                }
            },
            Err(word) => {
                let k = choose|k: int|
                    {
                        &&& 0 <= k < init.len()
                        &&& #[trigger] init[k] == word
                        &&& numbers::hex_byte(init[k]) is None
                        &&& forall|i: int|
                            0 <= i < k ==> numbers::hex_byte(#[trigger] init[i]) is Some
                    };
                assert(words[k] == word);
                assert forall|i: int| 0 <= i < k implies numbers::hex_byte(
                    #[trigger] words[i],
                ) is Some by {
                    assert(init[i] == words[i]);
                }
            },
        }
    }
}

/// Law: what becomes of a text of bytes: its tokens where every word is a byte, and an error that
/// names the first word that is none, or says that there are none.
pub proof fn law_hex_outcome(hex: Seq<char>)
    ensures
        match hex_tokens(text::words_of(hex)) {
            Ok(tokens) => if text::words_of(hex).len() > 0 {
                hex_outcome(hex) == Ok::<Seq<Seq<char>>, ErrorView>(tokens)
            } else {
                hex_outcome(hex) == Err::<Seq<Seq<char>>, ErrorView>(
                    ErrorView::Tmux("no hex byte tokens provided"@),
                )
            },
            Err(word) => hex_outcome(hex) == Err::<Seq<Seq<char>>, ErrorView>(
                ErrorView::Tmux(
                    "invalid hex byte token: "@ + outside::debug_text(word)
                        + " (expected 00-ff)"@,
                ),
            ),
        },
{
    law_hex_tokens(text::words_of(hex));
}

/// Law: buffers for pasting have names of their own: a fixed beginning, and then what is unique.
pub proof fn law_staging_names(a: Seq<char>, b: Seq<char>)
    ensures
        staging_name(a) == "__tmux_mcp_paste_"@ + a,
        a != b ==> staging_name(a) != staging_name(b),
{
    let head = "__tmux_mcp_paste_"@;
    if staging_name(a) == staging_name(b) {
        assert((head + a).skip(head.len() as int) =~= a);
        assert((head + b).skip(head.len() as int) =~= b);
    }
}

} // verus!
