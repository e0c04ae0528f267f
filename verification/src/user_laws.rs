//! What user programs say to the kernel, to servers and to their users.

use vstd::prelude::*;
use crate::bytes::le64_at;
use crate::logger::{digits, law_digits_stand_for_number, value_of};
use crate::user::{
    call, greeting, init_next, name_field, name_in, reply, sending, signed, uart_request,
    window_len, word_byte, InitNext, InitStage,
};

verus! {

/// Law: a call carries its number and its arguments as they are, and nothing where it has none; a
/// message goes out as the third call, with the slot in front of its five words.
pub proof fn law_calls_carry_arguments(num: u64, a: u64, b: u64, c: u64, m: Seq<u64>)
    ensures
        ({
            let k = call(num, a, b, c);
            let s = sending(a, m);
            &&& k.num == num && k.args.a0 == a && k.args.a1 == b && k.args.a2 == c
            &&& k.args.a3 == 0 && k.args.a4 == 0 && k.args.a5 == 0
            &&& s.num == 3 && s.args.a0 == a && s.args.a1 == m[0] && s.args.a2 == m[1]
            &&& s.args.a3 == m[2] && s.args.a4 == m[3] && s.args.a5 == m[4]
        }),
{
}

/// Law: a reply repeats the request with bit 7 set, then tells the outcome and the result.
pub proof fn law_reply_repeats_request(op: u64, status: u64, result: u64)
    ensures
        ({
            let r = reply(op, status, result);
            &&& r.len() == 5
            &&& op < 0x80 ==> r[0] == op + 0x80
            &&& r[1] == status && r[2] == result
            &&& r[3] == 0 && r[4] == 0
        }),
{
    assert(op < 0x80 ==> op | 0x80 == op + 0x80) by (bit_vector);
}

/// Law: the channel to the console is set up by three calls: connect to service 1 through slot 2 to
/// slot 0 of the server, copy slot 2 to slot 3, and turn slot 3 and slot 1 of the server into a
/// shared page of 4096 bytes. It is there where the last returned the number of a page.
pub proof fn law_channel_takes_three_calls(rc: u64)
    ensures
        init_next(InitStage::Start, rc) matches InitNext::Call(s, c) && s == InitStage::Connecting
            && c.num == 11 && c.args.a0 == 1 && c.args.a1 == 2 && c.args.a2 == 0,
        init_next(InitStage::Connecting, 0) matches InitNext::Call(s, c) && s == InitStage::Copying
            && c.num == 7 && c.args.a0 == 2 && c.args.a1 == 3,
        init_next(InitStage::Copying, 0) matches InitNext::Call(s, c) && s == InitStage::Sharing
            && c.num == 5 && c.args.a0 == 3 && c.args.a1 == 1 && c.args.a2 == 4096,
        rc != 0 ==> init_next(InitStage::Connecting, rc) == InitNext::Done(rc),
        rc != 0 ==> init_next(InitStage::Copying, rc) == InitNext::Done(rc),
        rc < crate::space::MAX_SHMS ==> init_next(InitStage::Sharing, rc) == InitNext::Done(0),
        rc >= crate::space::MAX_SHMS ==> init_next(InitStage::Sharing, rc) == InitNext::Done(rc),
{
}

/// Law: as much of a text goes through the shared page at once as there is and as the page holds.
pub proof fn law_window_is_full(len: int)
    requires
        len >= 0,
    ensures
        window_len(len) <= len,
        window_len(len) <= 4096,
        window_len(len) == len || window_len(len) == 4096,
{
}

/// Law: a request to the console goes through slot 2: what is asked for, and for how many bytes.
pub proof fn law_console_is_asked(op: u64, len: int)
    requires
        0 <= len <= 4096,
    ensures
        ({
            let c = uart_request(op, len);
            &&& c.num == 3
            &&& c.args.a0 == 2
            &&& c.args.a1 == op
            &&& c.args.a2 == len
            &&& c.args.a3 == 0 && c.args.a4 == 0 && c.args.a5 == 0
        }),
{
}

/// A number by its lowest digit to base 256.
proof fn lemma_low_byte(w: int, b: int, r: int)
    requires
        w == b + 256 * r,
        0 <= b < 256,
    ensures
        w % 256 == b,
        w / 256 == r,
{
}

/// The bytes of a word are those that it was made of.
#[verifier::spinoff_prover]
proof fn lemma_word_of_bytes(d: Seq<u8>, i: int, w: u64)
    requires
        w == le64_at(d, i),
    ensures
        forall|j: int| 0 <= j < 8 ==> #[trigger] word_byte(w, j) == d[i + j],
{
    reveal_with_fuel(word_byte, 8);
    let r7 = d[i + 7] as int;
    let r6 = d[i + 6] + 256 * r7;
    let r5 = d[i + 5] + 256 * r6;
    let r4 = d[i + 4] + 256 * r5;
    let r3 = d[i + 3] + 256 * r4;
    let r2 = d[i + 2] + 256 * r3;
    let r1 = d[i + 1] + 256 * r2;
    assert(w == d[i] + 256 * r1);
    lemma_low_byte(w as int, d[i] as int, r1);
    lemma_low_byte(r1, d[i + 1] as int, r2);
    lemma_low_byte(r2, d[i + 2] as int, r3);
    lemma_low_byte(r3, d[i + 3] as int, r4);
    lemma_low_byte(r4, d[i + 4] as int, r5);
    lemma_low_byte(r5, d[i + 5] as int, r6);
    lemma_low_byte(r6, d[i + 6] as int, r7);
    lemma_low_byte(r7, d[i + 7] as int, 0);
    let w1 = (w / 256) as u64;
    let w2 = (w1 / 256) as u64;
    let w3 = (w2 / 256) as u64;
    let w4 = (w3 / 256) as u64;
    let w5 = (w4 / 256) as u64;
    let w6 = (w5 / 256) as u64;
    let w7 = (w6 / 256) as u64;
    assert(w1 == r1 && w2 == r2 && w3 == r3 && w4 == r4 && w5 == r5 && w6 == r6 && w7 == r7);
    assert(word_byte(w, 0) == d[i]);
    assert(word_byte(w, 1) == word_byte(w1, 0) && word_byte(w1, 0) == d[i + 1]);
    assert(word_byte(w2, 0) == d[i + 2]);
    assert(word_byte(w, 2) == word_byte(w1, 1) && word_byte(w1, 1) == word_byte(w2, 0));
    assert(word_byte(w3, 0) == d[i + 3]);
    assert(word_byte(w, 3) == word_byte(w1, 2) && word_byte(w1, 2) == word_byte(w2, 1)
        && word_byte(w2, 1) == word_byte(w3, 0));
    assert(word_byte(w4, 0) == d[i + 4]);
    assert(word_byte(w, 4) == word_byte(w4, 0));
    assert(word_byte(w5, 0) == d[i + 5]);
    assert(word_byte(w, 5) == word_byte(w5, 0));
    assert(word_byte(w6, 0) == d[i + 6]);
    assert(word_byte(w, 6) == word_byte(w6, 0));
    assert(word_byte(w7, 0) == d[i + 7]);
    assert(word_byte(w, 7) == word_byte(w7, 0));
}

/// Law: a name of up to 24 bytes that was packed into three words is the same when it was taken out
/// of them again; of a longer one the first 24 bytes are.
pub proof fn law_name_survives(name: Seq<u8>, words: Seq<u64>)
    requires
        words.len() == 3,
        forall|i: int| 0 <= i < 3 ==> #[trigger] words[i] == le64_at(name_field(name), 8 * i),
    ensures
        name.len() <= 24 ==> name_in(words, name.len() as int) == name,
        name.len() > 24 ==> name_in(words, 24) == name.take(24),
{
    let f = name_field(name);
    let n = if name.len() <= 24 {
        name.len() as int
    } else {
        24
    };
    assert(words[0] == le64_at(f, 0) && words[1] == le64_at(f, 8) && words[2] == le64_at(f, 16));
    lemma_word_of_bytes(f, 0, words[0]);
    lemma_word_of_bytes(f, 8, words[1]);
    lemma_word_of_bytes(f, 16, words[2]);
    assert forall|k: int| 0 <= k < n implies #[trigger] name_in(words, n)[k] == name[k] by {
        assert(name_in(words, n)[k] == word_byte(words[k / 8], k % 8));
        assert(f[k] == name[k]);
        if k < 8 {
            assert(k / 8 == 0 && k % 8 == k);
        } else if k < 16 {
            assert(k / 8 == 1 && k % 8 == k - 8);
        } else {
            assert(k / 8 == 2 && k % 8 == k - 16);
        }
    }
    assert(name_in(words, n) =~= name.take(n));
    if name.len() <= 24 {
        assert(name.take(n) =~= name);
    }
}

/// Law: the greeting is a line with the greeting, a line with the number of arguments in decimal
/// digits, and a line with the first argument as it is, where there is one.
pub proof fn law_greeting_tells_arguments(argc: u64, arg: Seq<u8>, n: int)
    requires
        n == greeting(argc, None).len() - 21,
    ensures
        ({
            let g = greeting(argc, None);
            let h = greeting(argc, Some(arg));
            &&& n >= 1
            &&& g.take(20) == seq![
                0x68u8, 0x65, 0x6c, 0x6c, 0x6f, 0x2c, 0x20, 0x69, 0x67, 0x6e, 0x69, 0x75, 0x6d, 0x21,
                0x0a, 0x61, 0x72, 0x67, 0x63, 0x3d,
            ]
            &&& forall|i: int| 20 <= i < 20 + n ==> 0x30 <= #[trigger] g[i] <= 0x39
            &&& value_of(g.subrange(20, 20 + n)) == argc
            &&& g[20 + n] == 0x0a
            &&& h.take(21 + n) == g
            &&& h.subrange(21 + n, 29 + n) == seq![
                0x61u8, 0x72, 0x67, 0x76, 0x5b, 0x30, 0x5d, 0x3d,
            ]
            &&& h.subrange(29 + n, 29 + n + arg.len()) == arg
            &&& h.len() == 30 + n + arg.len()
            &&& h.last() == 0x0a
        }),
{
    let g = greeting(argc, None);
    let h = greeting(argc, Some(arg));
    let d = digits(argc as nat);
    law_digits_stand_for_number(argc as nat);
    assert(d.len() == n);
    assert(g.subrange(20, 20 + n) =~= d);
    assert forall|i: int| 20 <= i < 20 + n implies 0x30 <= #[trigger] g[i] <= 0x39 by {
        assert(g[i] == d[i - 20]);
    }
    assert(g.take(20) =~= seq![
        0x68u8, 0x65, 0x6c, 0x6c, 0x6f, 0x2c, 0x20, 0x69, 0x67, 0x6e, 0x69, 0x75, 0x6d, 0x21, 0x0a,
        0x61, 0x72, 0x67, 0x63, 0x3d,
    ]);
    assert(h.take(21 + n) =~= g);
    assert(h.subrange(29 + n, 29 + n + arg.len()) =~= arg);
}

/// Law: a word stands for a number between -2^63 and 2^63, equal to it up to a multiple of 2^64.
pub proof fn law_sign_of_words(w: u64)
    ensures
        -0x8000_0000_0000_0000 <= signed(w) < 0x8000_0000_0000_0000,
        signed(w) == w || signed(w) == w - 0x1_0000_0000_0000_0000,
{
}

} // verus!
