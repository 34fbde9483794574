//! What the texts of the protocol are made of: numbers, words and lists, as they stand on the wire.
use crate::error;
use crate::error::{ErrorModel, ServerError};
use crate::laws;
use crate::message;
use crate::message::{CloseReason, WsMessage};
use crate::model::{Delivery, OutgoingModel};
use crate::protocol;
use crate::protocol::{Request, RequestModel};
use crate::server;
use crate::server::Outgoing;
use crate::text;
use vstd::arithmetic::div_mod::*;
use vstd::arithmetic::power::*;
use vstd::prelude::*;
use vstd::utf8::*;

verus! {

/// Dividing by ten once more.
proof fn lemma_shift(n: int, k: nat)
    requires
        0 <= n,
    ensures
        pow(10, k) > 0,
        pow(10, k + 1) == 10 * pow(10, k),
        n / pow(10, k + 1) == (n / 10) / pow(10, k),
{
    reveal(pow);
    lemma_pow_positive(10, k);
    lemma_div_denominator(n, 10, pow(10, k));
}

/// Digits that have the value `n` are the digits of `n` by place.
proof fn lemma_places(s: Seq<char>)
    requires
        text::all_digits(s),
    ensures
        text::digits_value(s) < pow(10, s.len()),
        forall|i: int|
            0 <= i < s.len() ==> #[trigger] s[i] as u32 == 48 + (text::digits_value(s) as int
                / pow(10, (s.len() - 1 - i) as nat)) % 10,
    decreases s.len(),
{
    let n = text::digits_value(s) as int;
    if s.len() == 0 {
        lemma_pow0(10);
    } else {
        let init = s.drop_last();
        lemma_places(init);
        lemma_shift(n, init.len());
        assert(s.last() == s[s.len() - 1]);
        assert(n / 10 == text::digits_value(init));
        assert forall|i: int| 0 <= i < s.len() implies #[trigger] s[i] as u32 == 48 + (n
            / pow(10, (s.len() - 1 - i) as nat)) % 10 by {
            if i == s.len() - 1 {
                lemma_pow0(10);
                assert((s.len() - 1 - i) as nat == 0);
                assert(n / pow(10, 0) == n);
                assert(text::is_digit(s[i]));
            } else {
                assert(s[i] == init[i]);
                assert((s.len() - 1 - i) as nat == (init.len() - 1 - i) as nat + 1);
                lemma_shift(n, (init.len() - 1 - i) as nat);
            }
        }
    }
}

/// The digits of `n` by place have the value `n`.
proof fn lemma_places_converse(s: Seq<char>, n: int)
    requires
        0 <= n < pow(10, s.len()),
        forall|i: int|
            0 <= i < s.len() ==> #[trigger] s[i] as u32 == 48 + (n / pow(
                10,
                (s.len() - 1 - i) as nat,
            )) % 10,
    ensures
        text::all_digits(s),
        text::digits_value(s) == n,
    decreases s.len(),
{
    if s.len() == 0 {
        lemma_pow0(10);
    } else {
        let init = s.drop_last();
        lemma_shift(n, init.len());
        lemma_pow0(10);
        assert(s[s.len() - 1] as u32 == 48 + (n / pow(10, 0)) % 10);
        assert forall|i: int| 0 <= i < init.len() implies #[trigger] init[i] as u32 == 48 + ((n
            / 10) / pow(10, (init.len() - 1 - i) as nat)) % 10 by {
            assert(s[i] == init[i]);
            lemma_shift(n, (init.len() - 1 - i) as nat);
        }
        lemma_places_converse(init, n / 10);
        assert forall|i: int| 0 <= i < s.len() implies text::is_digit(#[trigger] s[i]) by {
            if i < init.len() {
                assert(text::is_digit(init[i]));
            }
        }
    }
}

/// A number is written with the digits that it has in the decimal system, the first of which is a
/// zero for the number zero alone.
pub proof fn law_decimal_has_the_digits_of_the_number(n: nat)
    ensures
        text::decimal(n).len() > 0,
        n < pow(10, text::decimal(n).len()),
        text::decimal(n).len() > 1 ==> n >= pow(
            10,
            (text::decimal(n).len() - 1) as nat,
        ),
        forall|i: int|
            0 <= i < text::decimal(n).len() ==> #[trigger] text::decimal(n)[i] as u32 == 48 + (n as int
                / pow(10, (text::decimal(n).len() - 1 - i) as nat)) % 10,
    decreases n,
{
    laws::lemma_decimal(n);
    lemma_places(text::decimal(n));
    if n >= 10 {
        law_decimal_has_the_digits_of_the_number(n / 10);
        let len = text::decimal(n / 10).len();
        lemma_shift(n as int, (len - 1) as nat);
        lemma_pow0(10);
    }
}

/// A word stands for the number `n` if and only if it is made of at least one digit, perhaps behind
/// a plus sign, and these are the digits that `n` has in the decimal system, zeros in front allowed.
pub proof fn law_number_is_read_by_its_digits(word: Seq<char>, digits: Seq<char>, n: u32)
    requires
        digits == if word.len() > 0 && word[0] == '+' {
            word.skip(1)
        } else {
            word
        },
    ensures
        text::parse_number(word) == Some(n) <==> {
            &&& digits.len() > 0
            &&& n < pow(10, digits.len())
            &&& forall|i: int|
                0 <= i < digits.len() ==> #[trigger] digits[i] as u32 == 48 + (n as int / pow(
                    10,
                    (digits.len() - 1 - i) as nat,
                )) % 10
        },
{
    if text::parse_number(word) == Some(n) {
        lemma_places(digits);
    }
    if n < pow(10, digits.len()) && forall|i: int|
        0 <= i < digits.len() ==> #[trigger] digits[i] as u32 == 48 + (n as int / pow(
            10,
            (digits.len() - 1 - i) as nat,
        )) % 10 {
        lemma_places_converse(digits, n as int);
    }
}

/// A media server is a peer whose id is 999 once some of its last digits have been cut off.
pub proof fn law_media_servers_have_ids_that_begin_with_999(id: u32)
    ensures
        protocol::is_media_server(id) <==> exists|k: nat|
            id as int / #[trigger] pow(10, k) == 999,
{
    let n = id as int;
    let digits = text::decimal(id as nat);
    law_decimal_has_the_digits_of_the_number(id as nat);
    reveal_strlit("999");
    if protocol::is_media_server(id) {
        let k = (digits.len() - 3) as nat;
        let head = n / pow(10, k);
        assert(digits.take(3)[0] == '9' && digits.take(3)[1] == '9' && digits.take(3)[2] == '9');
        assert(digits[0] == '9' && digits[1] == '9' && digits[2] == '9');
        lemma_leading(n, k);
        assert((k + 2) as nat == (digits.len() - 1 - 0) as nat);
        assert((k + 1) as nat == (digits.len() - 1 - 1) as nat);
        assert(head == 999);
    }
    if exists|k: nat| n / #[trigger] pow(10, k) == 999 {
        let k = choose|k: nat| n / #[trigger] pow(10, k) == 999;
        lemma_leading(n, k);
        let p = pow(10, k);
        lemma_fundamental_div_mod(n, p);
        lemma_mod_bound(n, p);
        assert(999 * p <= n < 1000 * p) by (nonlinear_arith)
            requires
                n == p * 999 + n % p,
                0 <= n % p < p,
        ;
        if digits.len() > k + 3 {
            lemma_pow_increases(10, k + 3, (digits.len() - 1) as nat);
        }
        if digits.len() < k + 3 {
            lemma_pow_increases(10, digits.len(), k + 2);
        }
        assert(digits.len() == k + 3);
        assert((digits.len() - 1 - 0) as nat == k + 2 && (digits.len() - 1 - 1) as nat == k + 1);
        lemma_nine(digits[0]);
        lemma_nine(digits[1]);
        lemma_nine(digits[2]);
        assert(digits[0] == '9' && digits[1] == '9' && digits[2] == '9');
        assert(digits.take(3) =~= "999"@);
    }
}

/// The character of code 57 is the nine.
proof fn lemma_nine(c: char)
    requires
        c as u32 == 57,
    ensures
        c == '9',
{
}

/// What cutting off digits leaves of the leading ones.
proof fn lemma_leading(n: int, k: nat)
    requires
        0 <= n,
    ensures
        pow(10, k) > 0,
        pow(10, k + 1) == 10 * pow(10, k),
        pow(10, k + 2) == 100 * pow(10, k),
        pow(10, k + 3) == 1000 * pow(10, k),
        n / pow(10, k + 1) == (n / pow(10, k))
            / 10,
        n / pow(10, k + 2) == (n / pow(10, k))
            / 100,
        n < pow(10, k + 3) ==> n / pow(10, k)
            < 1000,
{
    let p = pow(10, k);
    lemma_shift(n, k);
    lemma_shift(n, k + 1);
    lemma_shift(n, k + 2);
    lemma_div_denominator(n, p, 10);
    lemma_div_denominator(n, p, 100);
    if n < 1000 * p {
        assert(n / p < 1000) by (nonlinear_arith)
            requires
                p > 0,
                0 <= n < 1000 * p,
        ;
    }
}

/// A text begins with another one if it has the same characters to begin with.
pub proof fn law_beginnings_are_compared_by_character(s: Seq<char>, prefix: Seq<char>)
    ensures
        text::starts_with(s, prefix) <==> {
            &&& prefix.len() <= s.len()
            &&& forall|i: int| 0 <= i < prefix.len() ==> #[trigger] s[i] == prefix[i]
        },
{
    if text::starts_with(s, prefix) {
        assert forall|i: int| 0 <= i < prefix.len() implies #[trigger] s[i] == prefix[i] by {
            assert(s.take(prefix.len() as int)[i] == s[i]);
        }
    } else if prefix.len() <= s.len() && forall|i: int|
        0 <= i < prefix.len() ==> #[trigger] s[i] == prefix[i] {
        assert(s.take(prefix.len() as int) =~= prefix);
    }
}

/// The first `c` of a text cuts it in two; a text without a `c` is left whole.
pub proof fn law_texts_are_cut_at_the_first_occurrence(
    head: Seq<char>,
    c: char,
    tail: Seq<char>,
)
    requires
        !head.contains(c),
    ensures
        text::before(head + seq![c] + tail, c) == head,
        text::after(head + seq![c] + tail, c) == Some(tail),
        text::before(head, c) == head,
        text::after(head, c) is None,
{
    assert forall|i: int| 0 <= i < head.len() implies head[i] != c by {
        if head[i] == c {
            assert(head.contains(c));
        }
    }
    laws::lemma_cut(head, c, tail);
    text::lemma_first_absent(head, c);
}

/// A list of ids is the decimal form of each of them, in order, with a space in front of all but the
/// first.
pub proof fn law_list_names_every_id_in_order(ids: Seq<u32>)
    ensures
        text::id_list(ids) == Seq::new(
            ids.len(),
            |i: int|
                if i == 0 {
                    text::decimal(ids[i] as nat)
                } else {
                    seq![' '] + text::decimal(ids[i] as nat)
                },
        ).flatten(),
    decreases ids.len(),
{
    let words = Seq::new(
        ids.len(),
        |i: int|
            if i == 0 {
                text::decimal(ids[i] as nat)
            } else {
                seq![' '] + text::decimal(ids[i] as nat)
            },
    );
    if ids.len() > 0 {
        let init = ids.drop_last();
        law_list_names_every_id_in_order(init);
        let rest = Seq::new(
            init.len(),
            |i: int|
                if i == 0 {
                    text::decimal(init[i] as nat)
                } else {
                    seq![' '] + text::decimal(init[i] as nat)
                },
        );
        assert(words.drop_last() =~= rest);
        assert(words =~= rest.push(words.last()));
        rest.lemma_flatten_push(words.last());
        assert(text::id_list(ids) =~= rest.flatten() + words.last());
    }
}

/// Different lists of ids are different texts, so that a list tells exactly who is on it, and in
/// which order.
pub proof fn law_list_is_injective(a: Seq<u32>, b: Seq<u32>)
    ensures
        text::id_list(a) == text::id_list(b) <==> a == b,
    decreases a.len(),
{
    if text::id_list(a) == text::id_list(b) {
        lemma_list_is_empty(a);
        lemma_list_is_empty(b);
        if a.len() > 0 && b.len() > 0 {
            laws::law_id_list_reads_back(a);
            laws::law_id_list_reads_back(b);
            if a.len() > 1 && b.len() > 1 {
                law_list_is_injective(a.skip(1), b.skip(1));
                assert(a =~= seq![a[0]] + a.skip(1));
                assert(b =~= seq![b[0]] + b.skip(1));
            }
        }
        assert(a =~= b);
    }
}

/// The list of nobody is the only empty one.
proof fn lemma_list_is_empty(ids: Seq<u32>)
    ensures
        text::id_list(ids).len() == 0 <==> ids.len() == 0,
{
    if ids.len() > 0 {
        laws::lemma_decimal(ids.last() as nat);
        laws::lemma_decimal(ids[0] as nat);
    }
}

/// A text that holds no `c` has another character everywhere.
proof fn lemma_holds_no(s: Seq<char>, c: char)
    requires
        !s.contains(c),
    ensures
        forall|i: int| 0 <= i < s.len() ==> s[i] != c,
{
    assert forall|i: int| 0 <= i < s.len() implies s[i] != c by {
        if s[i] == c {
            assert(s.contains(c));
        }
    }
}

/// What is read behind a prefix and one more character, up to the first space.
proof fn lemma_payload(prefix: Seq<char>, c: char, word: Seq<char>, more: Seq<char>)
    requires
        !word.contains(' '),
    ensures
        ({
            let short = prefix + seq![c] + word;
            let long = prefix + seq![c] + word + seq![' '] + more;
            &&& text::starts_with(short, prefix)
            &&& text::starts_with(long, prefix)
            &&& protocol::payload(short, prefix) == if (c as u32) < 128 {
                Some(word)
            } else {
                None
            }
            &&& protocol::payload(long, prefix) == if (c as u32) < 128 {
                Some(word + seq![' '] + more)
            } else {
                None
            }
        }),
        text::before(word, ' ') == word,
        text::after(word, ' ') is None,
        text::before(word + seq![' '] + more, ' ') == word,
        text::after(word + seq![' '] + more, ' ') == Some(more),
{
    let short = prefix + seq![c] + word;
    let rest = word + seq![' '] + more;
    let long = prefix + seq![c] + word + seq![' '] + more;
    law_texts_are_cut_at_the_first_occurrence(word, ' ', more);
    assert(short =~= prefix + (seq![c] + word));
    assert(long =~= prefix + (seq![c] + rest));
    laws::lemma_starts_with(prefix, seq![c] + word);
    laws::lemma_starts_with(prefix, seq![c] + rest);
    assert(short[prefix.len() as int] == c);
    assert(long[prefix.len() as int] == c);
    assert(short.skip(prefix.len() as int + 1) =~= word);
    assert(long.skip(prefix.len() as int + 1) =~= rest);
}

/// A message to another peer is `ROOM_PEER_MSG`, any one character of a single byte, the id of the
/// other peer, a space, and the body, which is all that follows. Without the space there is no body;
/// without a number for the id it cannot be read.
pub proof fn law_peer_message_is_read_whole(c: char, word: Seq<char>, body: Seq<char>)
    requires
        !word.contains(' '),
    ensures
        protocol::request_of("ROOM_PEER_MSG"@ + seq![c] + word + seq![' '] + body) == if (c as u32)
            < 128 && text::parse_number(word) is Some {
            Some(
                RequestModel::PeerMessage { to: text::parse_number(word)->0, body: Some(body) },
            )
        } else {
            None
        },
        protocol::request_of("ROOM_PEER_MSG"@ + seq![c] + word) == if (c as u32) < 128
            && text::parse_number(word) is Some {
            Some(RequestModel::PeerMessage { to: text::parse_number(word)->0, body: None })
        } else {
            None
        },
        protocol::request_of("ROOM_PEER_MSG"@) is None,
{
    lemma_payload("ROOM_PEER_MSG"@, c, word, body);
    assert("ROOM_PEER_MSG"@.take("ROOM_PEER_MSG"@.len() as int) =~= "ROOM_PEER_MSG"@);
}

/// `ROOM_PEER_MSG <to> <body>` is a message to the peer `to` with exactly this body.
pub proof fn law_peer_message_reads_as_written(to: u32, body: Seq<char>)
    ensures
        protocol::request_of("ROOM_PEER_MSG "@ + text::decimal(to as nat) + " "@ + body) == Some(
            RequestModel::PeerMessage { to, body: Some(body) },
        ),
{
    reveal_strlit("ROOM_PEER_MSG ");
    reveal_strlit("ROOM_PEER_MSG");
    reveal_strlit(" ");
    let word = text::decimal(to as nat);
    laws::lemma_decimal_holds_no(to as nat, ' ');
    laws::law_number_reads_back(to);
    law_peer_message_is_read_whole(' ', word, body);
    assert("ROOM_PEER_MSG "@ =~= "ROOM_PEER_MSG"@ + seq![' ']);
    assert("ROOM_PEER_MSG "@ + word + " "@ + body =~= "ROOM_PEER_MSG"@ + seq![' '] + word + seq![' ']
        + body);
}

/// What begins with `ROOM_CMD` does not begin like a message to a peer.
proof fn lemma_no_peer_message(rest: Seq<char>)
    ensures
        !text::starts_with("ROOM_CMD"@ + rest, "ROOM_PEER_MSG"@),
        text::starts_with("ROOM_CMD"@ + rest, "ROOM_CMD"@),
        ("ROOM_CMD"@ + rest).skip("ROOM_CMD"@.len() as int) == rest,
{
    reveal_strlit("ROOM_CMD");
    reveal_strlit("ROOM_PEER_MSG");
    let message = "ROOM_CMD"@ + rest;
    laws::lemma_starts_with("ROOM_CMD"@, rest);
    law_beginnings_are_compared_by_character(message, "ROOM_PEER_MSG"@);
    assert(message[5] == 'C');
    assert("ROOM_PEER_MSG"@[5] == 'P');
}

/// A room command is `ROOM_CMD`, an underscore, the command, a space, and the id of the room; what
/// stands between `ROOM_CMD` and the underscore, or from a second underscore on, does not count.
/// Without an underscore, without a space behind the command, or without a number for the room, it
/// cannot be read.
pub proof fn law_room_command_is_read(
    skipped: Seq<char>,
    command: Seq<char>,
    room: Seq<char>,
    tail: Seq<char>,
)
    requires
        !skipped.contains('_'),
        !command.contains('_'),
        !command.contains(' '),
        !room.contains('_'),
        tail.len() == 0 || tail[0] == '_',
    ensures
        protocol::request_of(
            "ROOM_CMD"@ + skipped + seq!['_'] + command + seq![' '] + room + tail,
        ) == if text::parse_number(room) is Some {
            Some(RequestModel::RoomCommand { command, room_id: text::parse_number(room)->0 })
        } else {
            None
        },
        protocol::request_of("ROOM_CMD"@ + skipped + seq!['_'] + command + tail) is None,
        protocol::request_of("ROOM_CMD"@ + skipped) is None,
{
    let words = command + seq![' '] + room;
    let full = "ROOM_CMD"@ + skipped + seq!['_'] + command + seq![' '] + room + tail;
    let bare = "ROOM_CMD"@ + skipped + seq!['_'] + command + tail;
    assert(full =~= "ROOM_CMD"@ + (skipped + seq!['_'] + (words + tail)));
    assert(bare =~= "ROOM_CMD"@ + (skipped + seq!['_'] + (command + tail)));
    lemma_no_peer_message(skipped + seq!['_'] + (words + tail));
    lemma_no_peer_message(skipped + seq!['_'] + (command + tail));
    lemma_no_peer_message(skipped);
    law_texts_are_cut_at_the_first_occurrence(skipped, '_', words + tail);
    law_texts_are_cut_at_the_first_occurrence(skipped, '_', command + tail);
    lemma_holds_no(command, '_');
    lemma_holds_no(room, '_');
    assert forall|i: int| 0 <= i < words.len() implies words[i] != '_' by {
        if i < command.len() {
            assert(words[i] == command[i]);
        } else if i > command.len() {
            assert(words[i] == room[i - command.len() - 1]);
        }
    }
    assert(!words.contains('_'));
    lemma_up_to_tail(words, tail);
    lemma_up_to_tail(command, tail);
    law_texts_are_cut_at_the_first_occurrence(command, ' ', room);
}

/// What stands before the first underscore, where nothing follows or what follows begins with one.
proof fn lemma_up_to_tail(head: Seq<char>, tail: Seq<char>)
    requires
        !head.contains('_'),
        tail.len() == 0 || tail[0] == '_',
    ensures
        text::before(head + tail, '_') == head,
{
    if tail.len() == 0 {
        assert(head + tail =~= head);
        law_texts_are_cut_at_the_first_occurrence(head, '_', tail);
    } else {
        assert(head + tail =~= head + seq!['_'] + tail.skip(1));
        law_texts_are_cut_at_the_first_occurrence(head, '_', tail.skip(1));
    }
}

/// `ROOM_CMD_<command> <room>` is the command on exactly this room, for a command that holds neither
/// an underscore nor a space.
pub proof fn law_room_command_reads_as_written(command: Seq<char>, room_id: u32)
    requires
        !command.contains('_'),
        !command.contains(' '),
    ensures
        protocol::request_of("ROOM_CMD_"@ + command + " "@ + text::decimal(room_id as nat)) == Some(
            RequestModel::RoomCommand { command, room_id },
        ),
{
    reveal_strlit("ROOM_CMD_");
    reveal_strlit("ROOM_CMD");
    reveal_strlit(" ");
    let room = text::decimal(room_id as nat);
    laws::lemma_decimal_holds_no(room_id as nat, '_');
    laws::law_number_reads_back(room_id);
    law_room_command_is_read(Seq::empty(), command, room, Seq::empty());
    assert("ROOM_CMD_"@ =~= "ROOM_CMD"@ + seq!['_']);
    assert("ROOM_CMD_"@ + command + " "@ + room =~= "ROOM_CMD"@ + Seq::<char>::empty() + seq!['_']
        + command + seq![' '] + room + Seq::<char>::empty());
}

/// `ROOM_CMD_CREATE <room>` and `ROOM_CMD_JOIN <room>` are the two commands on exactly this room.
pub proof fn law_create_and_join_read_as_written(room_id: u32)
    ensures
        protocol::request_of("ROOM_CMD_CREATE "@ + text::decimal(room_id as nat)) == Some(
            RequestModel::RoomCommand { command: "CREATE"@, room_id },
        ),
        protocol::request_of("ROOM_CMD_JOIN "@ + text::decimal(room_id as nat)) == Some(
            RequestModel::RoomCommand { command: "JOIN"@, room_id },
        ),
{
    reveal_strlit("ROOM_CMD_CREATE ");
    reveal_strlit("ROOM_CMD_JOIN ");
    reveal_strlit("ROOM_CMD_");
    reveal_strlit("CREATE");
    reveal_strlit("JOIN");
    reveal_strlit(" ");
    law_room_command_reads_as_written("CREATE"@, room_id);
    law_room_command_reads_as_written("JOIN"@, room_id);
    assert("ROOM_CMD_CREATE "@ =~= "ROOM_CMD_"@ + "CREATE"@ + " "@);
    assert("ROOM_CMD_JOIN "@ =~= "ROOM_CMD_"@ + "JOIN"@ + " "@);
}

/// What begins with `ROOM_PEER_LIST` asks who is in the room, what begins with `SERVER_INVITE` is for
/// the media server, and what begins like no request is none.
pub proof fn law_other_messages_are_read_by_their_beginnings(rest: Seq<char>, message: Seq<char>)
    requires
        !text::starts_with(message, "ROOM_PEER_MSG"@),
        !text::starts_with(message, "ROOM_CMD"@),
        !text::starts_with(message, "ROOM_PEER_LIST"@),
        !text::starts_with(message, "SERVER_INVITE"@),
    ensures
        protocol::request_of("ROOM_PEER_LIST"@ + rest) == Some(RequestModel::PeerList),
        protocol::request_of("SERVER_INVITE"@ + rest) == Some(RequestModel::Invite),
        protocol::request_of(message) == Some(RequestModel::Unknown),
{
    reveal_strlit("ROOM_PEER_MSG");
    reveal_strlit("ROOM_CMD");
    reveal_strlit("ROOM_PEER_LIST");
    reveal_strlit("SERVER_INVITE");
    let list = "ROOM_PEER_LIST"@ + rest;
    let invite = "SERVER_INVITE"@ + rest;
    laws::lemma_starts_with("ROOM_PEER_LIST"@, rest);
    laws::lemma_starts_with("SERVER_INVITE"@, rest);
    law_beginnings_are_compared_by_character(list, "ROOM_PEER_MSG"@);
    law_beginnings_are_compared_by_character(list, "ROOM_CMD"@);
    law_beginnings_are_compared_by_character(invite, "ROOM_PEER_MSG"@);
    law_beginnings_are_compared_by_character(invite, "ROOM_CMD"@);
    law_beginnings_are_compared_by_character(invite, "ROOM_PEER_LIST"@);
    assert(list[10] == 'L' && "ROOM_PEER_MSG"@[10] == 'M');
    assert(list[5] == 'P' && "ROOM_CMD"@[5] == 'C');
    assert(invite[0] == 'S' && "ROOM_PEER_MSG"@[0] == 'R');
    assert("ROOM_CMD"@[0] == 'R' && "ROOM_PEER_LIST"@[0] == 'R');
}

/// A greeting is `Hello`, any one character of a single byte, and the id of the peer, which ends with
/// the text or before the first space. Anything else introduces nobody.
pub proof fn law_greeting_is_read(c: char, word: Seq<char>, more: Seq<char>, other: Seq<char>)
    requires
        !word.contains(' '),
        !text::starts_with(other, "Hello"@),
    ensures
        protocol::greeting_id("Hello"@ + seq![c] + word) == if (c as u32) < 128 {
            text::parse_number(word)
        } else {
            None
        },
        protocol::greeting_id("Hello"@ + seq![c] + word + seq![' '] + more) == if (c as u32) < 128 {
            text::parse_number(word)
        } else {
            None
        },
        protocol::greeting_id("Hello"@) is None,
        protocol::greeting_id(other) is None,
{
    lemma_payload("Hello"@, c, word, more);
}

/// The text of a text message is the text, that of a closing message its reason, or empty, and that
/// of any other message what its bytes encode.
pub proof fn law_messages_carry_their_text(words: String, data: Vec<u8>, reason: CloseReason)
    ensures
        message::text_of(WsMessage::Text(words)) == Some(words@),
        message::text_of(WsMessage::Close(Some(reason))) == Some(reason.reason@),
        message::text_of(WsMessage::Close(None)) == Some(Seq::<char>::empty()),
        valid_utf8(data@) ==> {
            &&& message::text_of(WsMessage::Binary(data)) == Some(decode_utf8(data@))
            &&& message::text_of(WsMessage::Ping(data)) == Some(decode_utf8(data@))
            &&& message::text_of(WsMessage::Pong(data)) == Some(decode_utf8(data@))
            &&& message::text_of(WsMessage::Frame(data)) == Some(decode_utf8(data@))
        },
        !valid_utf8(data@) ==> {
            &&& message::text_of(WsMessage::Binary(data)) is None
            &&& message::text_of(WsMessage::Ping(data)) is None
            &&& message::text_of(WsMessage::Pong(data)) is None
            &&& message::text_of(WsMessage::Frame(data)) is None
        },
{
}

/// A text message `Hello <id>` introduces the peer of exactly this id.
pub proof fn law_hello_introduces_its_peer(words: String, id: u32)
    requires
        words@ == "Hello "@ + text::decimal(id as nat),
    ensures
        server::greeting_of(WsMessage::Text(words)) == Some(id),
{
    laws::law_greeting_reads_back(id, Seq::empty());
}

/// What the server says, written out.
pub proof fn law_server_says_what_is_written_here(
    id: u32,
    room_id: u32,
    body: Seq<char>,
    ids: Seq<u32>,
)
    ensures
        protocol::welcome() == "Hello"@,
        protocol::peer_left(id) == "ROOM_PEER_LEFT "@ + text::decimal(id as nat),
        protocol::peer_joined(id) == "ROOM_PEER_JOINED "@ + text::decimal(id as nat),
        protocol::forwarded(id, body) == "ROOM_PEER_MSG "@ + text::decimal(id as nat) + " "@ + body,
        protocol::peer_not_found(id) == "ERROR peer "@ + text::decimal(id as nat) + " not found"@,
        protocol::peer_not_present(id, room_id) == "ERROR peer "@ + text::decimal(id as nat)
            + " not present in room "@ + text::decimal(room_id as nat),
        protocol::alias_wanted(room_id) == "SERVER_ALIAS "@ + text::decimal(room_id as nat),
        protocol::room_created() == "ROOM_OK"@,
        protocol::room_joined(ids) == "ROOM_OK "@ + text::id_list(ids),
        protocol::room_exists(room_id) == "ERROR ROOM "@ + text::decimal(room_id as nat)
            + " already exists"@,
        protocol::room_missing(room_id) == "ERROR ROOM "@ + text::decimal(room_id as nat)
            + " does not exist"@,
        protocol::room_peers(ids) == "ROOM_PEER_LIST "@ + text::id_list(ids),
{
}

/// Behind its label, a notice names the peer or the room by a word that reads back to its id.
pub proof fn law_notices_read_back(id: u32)
    ensures
        text::parse_number(protocol::peer_left(id).skip("ROOM_PEER_LEFT "@.len() as int)) == Some(
            id,
        ),
        text::parse_number(protocol::peer_joined(id).skip("ROOM_PEER_JOINED "@.len() as int))
            == Some(id),
        text::parse_number(protocol::alias_wanted(id).skip("SERVER_ALIAS "@.len() as int)) == Some(
            id,
        ),
{
    laws::law_number_reads_back(id);
    laws::lemma_starts_with("ROOM_PEER_LEFT "@, text::decimal(id as nat));
    laws::lemma_starts_with("ROOM_PEER_JOINED "@, text::decimal(id as nat));
    laws::lemma_starts_with("SERVER_ALIAS "@, text::decimal(id as nat));
}

/// Notices of two peers, and requests for two rooms, are two texts.
pub proof fn law_notices_tell_ids_apart(a: u32, b: u32)
    ensures
        protocol::peer_left(a) == protocol::peer_left(b) <==> a == b,
        protocol::peer_joined(a) == protocol::peer_joined(b) <==> a == b,
        protocol::alias_wanted(a) == protocol::alias_wanted(b) <==> a == b,
{
    law_notices_read_back(a);
    law_notices_read_back(b);
}

/// Behind its label, an answer lists ids in such a way that different lists are different texts.
pub proof fn law_answers_tell_lists_apart(a: Seq<u32>, b: Seq<u32>)
    ensures
        protocol::room_joined(a) == protocol::room_joined(b) <==> a == b,
        protocol::room_peers(a) == protocol::room_peers(b) <==> a == b,
{
    law_list_is_injective(a, b);
    laws::lemma_starts_with("ROOM_OK "@, text::id_list(a));
    laws::lemma_starts_with("ROOM_OK "@, text::id_list(b));
    laws::lemma_starts_with("ROOM_PEER_LIST "@, text::id_list(a));
    laws::lemma_starts_with("ROOM_PEER_LIST "@, text::id_list(b));
}

/// An error is described in these words.
pub proof fn law_errors_are_described_in_these_words(
    peer: u32,
    room_id: u32,
    command: Seq<char>,
    words: Seq<char>,
)
    ensures
        error::described(ErrorModel::MissingBody) == "Cannot parse peer message"@,
        error::described(ErrorModel::NotInRoom { peer }) == "Peer "@ + text::decimal(peer as nat)
            + " is not in a ROOM"@,
        error::described(ErrorModel::AlreadyInRoom { peer, command, room_id }) == "Peer "@
            + text::decimal(peer as nat) + " is giving CMD_ROOM_"@ + command
            + " but is already in ROOM "@ + text::decimal(room_id as nat),
        error::described(ErrorModel::InvalidCommand { command })
            == "Received invalid command message: "@ + command,
        error::described(ErrorModel::NoticeNotSent { to: peer, text: words })
            == "failed to send message on channel: "@ + words,
        error::described(ErrorModel::FarewellNotSent { to: peer, text: words })
            == "Failed to send message on channel: "@ + words,
        error::described(ErrorModel::NotSent { to: peer, text: words })
            == "failed to send message on channel: "@ + words,
{
}

/// The model of a request, an error or a message to a peer keeps every part of it.
pub proof fn law_models_keep_every_part(
    peer: u32,
    room_id: u32,
    words: String,
    command: String,
    delivery: Delivery,
)
    ensures
        (Request::PeerMessage { to: peer, body: Some(words) })@ == (RequestModel::PeerMessage {
            to: peer,
            body: Some(words@),
        }),
        (Request::PeerMessage { to: peer, body: None })@ == (RequestModel::PeerMessage {
            to: peer,
            body: None,
        }),
        (Request::RoomCommand { command, room_id })@ == (RequestModel::RoomCommand {
            command: command@,
            room_id,
        }),
        Request::PeerList@ == RequestModel::PeerList,
        Request::Invite@ == RequestModel::Invite,
        Request::Unknown@ == RequestModel::Unknown,
        ServerError::MissingBody@ == ErrorModel::MissingBody,
        (ServerError::NotInRoom { peer })@ == (ErrorModel::NotInRoom { peer }),
        (ServerError::AlreadyInRoom { peer, command, room_id })@ == (ErrorModel::AlreadyInRoom {
            peer,
            command: command@,
            room_id,
        }),
        (ServerError::InvalidCommand { command })@ == (ErrorModel::InvalidCommand {
            command: command@,
        }),
        (ServerError::NoticeNotSent { to: peer, text: words })@ == (ErrorModel::NoticeNotSent {
            to: peer,
            text: words@,
        }),
        (ServerError::FarewellNotSent { to: peer, text: words })@ == (ErrorModel::FarewellNotSent {
            to: peer,
            text: words@,
        }),
        (ServerError::NotSent { to: peer, text: words })@ == (ErrorModel::NotSent {
            to: peer,
            text: words@,
        }),
        (Outgoing { to: peer, text: words, delivery })@ == (OutgoingModel {
            to: peer,
            text: words@,
            delivery,
        }),
{
}

} // verus!
