use vstd::prelude::*;
use vstd::utf8::{
    codepoint_width_2, codepoint_width_3, codepoint_width_4, decode_first_codepoint,
    is_continuation_byte, is_leading_byte_width_1, is_leading_byte_width_2,
    is_leading_byte_width_3, is_leading_byte_width_4, length_of_first_codepoint,
    pop_first_scalar, valid_first_scalar, valid_utf8,
};

verus! {

/// A UTF-8 encoding takes at most four bytes per character.
pub proof fn lemma_encode_utf8_len(chars: Seq<char>)
    ensures
        vstd::utf8::encode_utf8(chars).len() <= 4 * chars.len(),
    decreases chars.len(),
{
    if chars.len() > 0 {
        lemma_encode_utf8_len(chars.drop_first());
    }
}

/// Whether the bytes are a valid UTF-8 encoding: each suffix must open with
/// a well-formed scalar encoding that is neither overlong nor a surrogate.
pub fn utf8_check(bytes: &[u8]) -> (r: bool)
    ensures
        r == valid_utf8(bytes@),
{
    let n = bytes.len();
    let mut i: usize = 0;
    proof {
        assert(bytes@.skip(0) =~= bytes@);
    }
    loop
        invariant
            i <= n == bytes@.len(),
            valid_utf8(bytes@) == valid_utf8(bytes@.skip(i as int)),
        decreases n - i,
    {
        if i >= n {
            proof {
                assert(bytes@.skip(i as int).len() == 0);
            }
            return true;
        }
        let ghost suffix = bytes@.skip(i as int);
        proof {
            assert(suffix.len() == n - i);
            assert(suffix[0] == bytes@[i as int]);
        }
        let b0 = bytes[i];
        let width: usize;
        if b0 < 0x80 {
            // one byte: never overlong, never a surrogate
            width = 1;
            proof {
                assert(valid_first_scalar(suffix));
            }
        } else if 0xc0 <= b0 && b0 <= 0xdf {
            if n - i < 2 || !(0x80 <= bytes[i + 1] && bytes[i + 1] <= 0xbf) {
                proof {
                    if 1 < suffix.len() {
                        assert(suffix[1] == bytes@[i + 1]);
                    }
                    assert(!valid_first_scalar(suffix));
                }
                return false;
            }
            let b1 = bytes[i + 1];
            let cp: u32 = (((b0 & 0x1f) as u32) << 6u32) | ((b1 & 0x3f) as u32);
            proof {
                assert(suffix[1] == bytes@[i + 1]);
                assert(length_of_first_codepoint(suffix) == 2);
                assert(decode_first_codepoint(suffix) == codepoint_width_2(b0, b1));
                assert(codepoint_width_2(b0, b1) == cp);
                assert(cp < 0x800) by (bit_vector)
                    requires
                        cp == ((((b0 & 0x1f) as u32) << 6u32) | ((b1 & 0x3f) as u32)),
                ;
            }
            if cp < 0x80 {
                proof {
                    assert(!valid_first_scalar(suffix));
                }
                return false;
            }
            width = 2;
            proof {
                assert(valid_first_scalar(suffix));
            }
        } else if 0xe0 <= b0 && b0 <= 0xef {
            if n - i < 3 || !(0x80 <= bytes[i + 1] && bytes[i + 1] <= 0xbf) || !(0x80 <= bytes[i
                + 2] && bytes[i + 2] <= 0xbf) {
                proof {
                    if 1 < suffix.len() {
                        assert(suffix[1] == bytes@[i + 1]);
                    }
                    if 2 < suffix.len() {
                        assert(suffix[2] == bytes@[i + 2]);
                    }
                    assert(!valid_first_scalar(suffix));
                }
                return false;
            }
            let b1 = bytes[i + 1];
            let b2 = bytes[i + 2];
            let cp: u32 = (((b0 & 0x0f) as u32) << 12u32) | (((b1 & 0x3f) as u32) << 6u32) | ((b2
                & 0x3f) as u32);
            proof {
                assert(suffix[1] == bytes@[i + 1]);
                assert(suffix[2] == bytes@[i + 2]);
                assert(length_of_first_codepoint(suffix) == 3);
                assert(decode_first_codepoint(suffix) == codepoint_width_3(b0, b1, b2));
                assert(codepoint_width_3(b0, b1, b2) == cp);
            }
            if cp < 0x800 || (0xd800 <= cp && cp <= 0xdfff) {
                proof {
                    assert(!valid_first_scalar(suffix));
                }
                return false;
            }
            width = 3;
            proof {
                assert(valid_first_scalar(suffix));
            }
        } else if 0xf0 <= b0 && b0 <= 0xf7 {
            if n - i < 4 || !(0x80 <= bytes[i + 1] && bytes[i + 1] <= 0xbf) || !(0x80 <= bytes[i
                + 2] && bytes[i + 2] <= 0xbf) || !(0x80 <= bytes[i + 3] && bytes[i + 3] <= 0xbf) {
                proof {
                    if 1 < suffix.len() {
                        assert(suffix[1] == bytes@[i + 1]);
                    }
                    if 2 < suffix.len() {
                        assert(suffix[2] == bytes@[i + 2]);
                    }
                    if 3 < suffix.len() {
                        assert(suffix[3] == bytes@[i + 3]);
                    }
                    assert(!valid_first_scalar(suffix));
                }
                return false;
            }
            let b1 = bytes[i + 1];
            let b2 = bytes[i + 2];
            let b3 = bytes[i + 3];
            let cp: u32 = (((b0 & 0x07) as u32) << 18u32) | (((b1 & 0x3f) as u32) << 12u32) | (((
            b2 & 0x3f) as u32) << 6u32) | ((b3 & 0x3f) as u32);
            proof {
                assert(suffix[1] == bytes@[i + 1]);
                assert(suffix[2] == bytes@[i + 2]);
                assert(suffix[3] == bytes@[i + 3]);
                assert(length_of_first_codepoint(suffix) == 4);
                assert(decode_first_codepoint(suffix) == codepoint_width_4(b0, b1, b2, b3));
                assert(codepoint_width_4(b0, b1, b2, b3) == cp);
            }
            if cp < 0x10000 || cp > 0x10ffff {
                proof {
                    assert(!valid_first_scalar(suffix));
                }
                return false;
            }
            width = 4;
            proof {
                assert(valid_first_scalar(suffix));
            }
        } else {
            // 0x80..0xbf opens with a continuation byte; 0xf8..0xff is no
            // leading byte at all
            proof {
                assert(!is_leading_byte_width_1(suffix[0]));
                assert(!is_leading_byte_width_2(suffix[0]));
                assert(!is_leading_byte_width_3(suffix[0]));
                assert(!is_leading_byte_width_4(suffix[0]));
                assert(!valid_first_scalar(suffix));
            }
            return false;
        }
        proof {
            assert(pop_first_scalar(suffix) =~= bytes@.skip(i + width));
            assert(valid_utf8(suffix) == valid_utf8(bytes@.skip(i + width)));
        }
        i = i + width;
    }
}

} // verus!