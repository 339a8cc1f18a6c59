//! The command lines that save a frame of the playing video as a PNG
//! image with `gst-launch-1.0`.

use vstd::prelude::*;
use vstd::utf8::{decode_utf8, encode_utf8, valid_utf8};
use crate::text::{chars_of, push_chars, push_str_chars, string_of, strs_view};

verus! {

/// `std::str::Utf8Error`, the error of reading bytes that are not UTF-8,
/// carried through unopened.
#[verifier::external_type_specification]
#[verifier::external_body]
pub struct ExUtf8Error(std::str::Utf8Error);

/// The value of an ASCII hexadecimal digit byte (`char::to_digit(16)`).
pub open spec fn hex_value(b: u8) -> Option<u8> {
    if 48 <= b <= 57 {
        Some((b - 48) as u8)
    } else if 97 <= b <= 102 {
        Some((b - 87) as u8)
    } else if 65 <= b <= 70 {
        Some((b - 55) as u8)
    } else {
        None
    }
}

/// Percent-decoding of bytes: every `%` followed by two hexadecimal digits
/// becomes the byte they denote; all other bytes are kept.
pub open spec fn percent_decode_bytes(s: Seq<u8>) -> Seq<u8>
    decreases s.len(),
{
    if s.len() == 0 {
        s
    } else if s[0] == 37 && s.len() >= 3 && hex_value(s[1]) is Some && hex_value(s[2]) is Some {
        seq![(hex_value(s[1])->0 * 16 + hex_value(s[2])->0) as u8] + percent_decode_bytes(
            s.skip(3),
        )
    } else {
        seq![s[0]] + percent_decode_bytes(s.drop_first())
    }
}

/// `percent_encoding::percent_decode_str(s).decode_utf8()`: the UTF-8
/// bytes of `s` percent-decoded, read back as UTF-8. It fails exactly when
/// the decoded bytes are not valid UTF-8; the error's content (where the
/// invalid bytes start) is not stated here.
#[verifier::external_body]
fn percent_decode_utf8(s: &str) -> (r: Result<String, std::str::Utf8Error>)
    ensures
        r is Ok <==> valid_utf8(percent_decode_bytes(encode_utf8(s@))),
        r matches Ok(d) ==> d@ == decode_utf8(percent_decode_bytes(encode_utf8(s@))),
{
    percent_encoding::percent_decode_str(s).decode_utf8().map(|c| c.into_owned())
}

/// The scheme prefix of a file URI.
pub open spec fn file_scheme() -> Seq<char> {
    seq!['f', 'i', 'l', 'e', ':', '/', '/']
}

/// The arguments of `gst-launch-1.0` that play `uri` and write one frame
/// as a PNG image to `save_path`.
pub open spec fn screenshot_args(uri: Seq<char>, save_path: Seq<char>) -> Seq<Seq<char>> {
    seq![
        "playbin"@,
        "uri="@ + uri,
        "!"@,
        "videoconvert"@,
        "!"@,
        "pngenc"@,
        "!"@,
        "filesink location="@ + save_path,
    ]
}

fn screenshot_arg_list(uri: &Vec<char>, save_path: &str) -> (r: Vec<String>)
    ensures
        strs_view(r@) == screenshot_args(uri@, save_path@),
{
    let mut r: Vec<String> = Vec::new();
    r.push(String::from_str("playbin"));
    let mut u = chars_of("uri=");
    push_chars(&mut u, uri);
    r.push(string_of(&u));
    r.push(String::from_str("!"));
    r.push(String::from_str("videoconvert"));
    r.push(String::from_str("!"));
    r.push(String::from_str("pngenc"));
    r.push(String::from_str("!"));
    let mut f = chars_of("filesink location=");
    push_str_chars(&mut f, save_path);
    r.push(string_of(&f));
    assert(strs_view(r@) =~= screenshot_args(uri@, save_path@));
    r
}

/// The `gst-launch-1.0` arguments that save the frame of the video at
/// `video_uri` to `save_path`. A `file://` URI has the rest of it
/// percent-decoded first; that fails when the decoded bytes are not UTF-8.
pub fn capture_and_save_screenshot(video_uri: &str, save_path: &str) -> (r: Result<
    Vec<String>,
    std::str::Utf8Error,
>)
    ensures
        ({
            let u = video_uri@;
            if u.len() >= 7 && u.take(7) == file_scheme() {
                let bytes = percent_decode_bytes(encode_utf8(u.skip(7)));
                &&& r is Ok <==> valid_utf8(bytes)
                &&& r matches Ok(args) ==> strs_view(args@) == screenshot_args(
                    file_scheme() + decode_utf8(bytes),
                    save_path@,
                )
            } else {
                r matches Ok(args) && strs_view(args@) == screenshot_args(u, save_path@)
            }
        }),
{
    let u = chars_of(video_uri);
    let is_file = u.len() >= 7 && u[0] == 'f' && u[1] == 'i' && u[2] == 'l' && u[3] == 'e' && u[4]
        == ':' && u[5] == '/' && u[6] == '/';
    proof {
        if u@.len() >= 7 {
            let p = u@.take(7);
            if is_file {
                assert(p =~= file_scheme());
            } else {
                assert(p[0] == u@[0] && p[1] == u@[1] && p[2] == u@[2] && p[3] == u@[3]);
                assert(p[4] == u@[4] && p[5] == u@[5] && p[6] == u@[6]);
                assert(p != file_scheme()) by {
                    let f = file_scheme();
                    assert(f[0] == 'f' && f[1] == 'i' && f[2] == 'l' && f[3] == 'e');
                    assert(f[4] == ':' && f[5] == '/' && f[6] == '/');
                }
            }
        }
    }
    if is_file {
        let mut rest: Vec<char> = Vec::new();
        let mut i: usize = 7;
        while i < u.len()
            invariant
                7 <= i <= u.len(),
                rest@ == u@.subrange(7, i as int),
            decreases u.len() - i,
        {
            rest.push(u[i]);
            i = i + 1;
            assert(rest@ =~= u@.subrange(7, i as int));
        }
        assert(rest@ =~= u@.skip(7));
        let rest_s = string_of(&rest);
        match percent_decode_utf8(rest_s.as_str()) {
            Ok(d) => {
                let mut full: Vec<char> = Vec::new();
                full.push('f');
                full.push('i');
                full.push('l');
                full.push('e');
                full.push(':');
                full.push('/');
                full.push('/');
                assert(full@ =~= file_scheme());
                let dc = chars_of(d.as_str());
                push_chars(&mut full, &dc);
                Ok(screenshot_arg_list(&full, save_path))
            },
            Err(e) => Err(e),
        }
    } else {
        Ok(screenshot_arg_list(&u, save_path))
    }
}

/// The `gst-launch-1.0` arguments that save the frame of the video file at
/// `video_path` to `save_path`, addressing the file as `file://` followed by
/// its path.
pub fn screenshot_direct_args(video_path: &str, save_path: &str) -> (r: Vec<String>)
    ensures
        strs_view(r@) == screenshot_args(file_scheme() + video_path@, save_path@),
{
    let mut full: Vec<char> = Vec::new();
    full.push('f');
    full.push('i');
    full.push('l');
    full.push('e');
    full.push(':');
    full.push('/');
    full.push('/');
    assert(full@ =~= file_scheme());
    push_str_chars(&mut full, video_path);
    screenshot_arg_list(&full, save_path)
}

} // verus!
