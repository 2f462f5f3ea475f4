//! The ntfy notification that reports a change: where it goes and what it
//! says. Sending it is left to the caller.
use vstd::prelude::*;
use vstd::string::StringSliceAdditionalSpecFns;
use vstd::utf8::{
    decode_utf8, decode_utf8_split, encode_utf8, encode_utf8_decode_utf8, encode_utf8_valid_utf8,
    is_char_boundary, is_char_boundary_start_end_of_seq, valid_utf8,
};

use crate::config::{GeneralConfig, TargetConfig};
use crate::text::{chars_of, decimal, push_chars, push_decimal};

verus! {

/// The most bytes of diff that a notification body carries.
pub const MAX_DIFF_BYTES: usize = 3800;

/// `s` without its trailing `/` characters.
pub open spec fn trim_trailing_slashes(s: Seq<char>) -> Seq<char>
    decreases s.len(),
{
    if s.len() > 0 && s.last() == '/' {
        trim_trailing_slashes(s.drop_last())
    } else {
        s
    }
}

/// The server a target's notifications go to.
pub open spec fn server_for(general: GeneralConfig, target: TargetConfig) -> Seq<char> {
    match target.ntfy_server {
        Some(s) => s@,
        None => general.ntfy_server@,
    }
}

/// `{server}/{topic}`, the server's trailing slashes dropped.
pub open spec fn topic_url(server: Seq<char>, topic: Seq<char>) -> Seq<char> {
    trim_trailing_slashes(server) + seq!['/'] + topic
}

/// The largest character boundary of `bytes` at or below `i`.
pub open spec fn boundary_at_or_below(bytes: Seq<u8>, i: int) -> int
    decreases i,
{
    if i <= 0 || is_char_boundary(bytes, i) {
        i
    } else {
        boundary_at_or_below(bytes, i - 1)
    }
}

/// The body of a notification: the monitored URL, a blank line, and the
/// diff; a diff of more than `MAX_DIFF_BYTES` bytes of UTF-8 is cut at the
/// last character boundary at or below that many bytes and followed by a
/// note giving its full length.
pub open spec fn notification_body(url: Seq<char>, diff: Seq<char>) -> Seq<char> {
    let bytes = encode_utf8(diff);
    if bytes.len() > MAX_DIFF_BYTES {
        let cut = boundary_at_or_below(bytes, MAX_DIFF_BYTES as int);
        url + "\n\n"@ + decode_utf8(bytes.take(cut)) + "\n\n... [diff truncated, "@ + decimal(
            bytes.len(),
        ) + " bytes total]"@
    } else {
        url + "\n\n"@ + diff
    }
}

/// A change notification, ready to send: a POST of `body` to `url` with
/// the `Title`, `Content-Type`, `Priority` (when set), `Tags` and `Click`
/// headers.
#[derive(Debug)]
pub struct Notification {
    pub url: String,
    pub title: String,
    pub body: String,
    pub content_type: String,
    pub priority: Option<String>,
    pub tags: String,
    pub click: String,
}

fn trimmed_server(server: &str) -> (r: String)
    ensures
        r@ == trim_trailing_slashes(server@),
{
    let v = chars_of(server);
    let mut end = v.len();
    assert(v@.take(end as int) =~= v@);
    while end > 0 && v[end - 1] == '/'
        invariant
            end <= v.len(),
            v@ == server@,
            trim_trailing_slashes(server@) == trim_trailing_slashes(v@.take(end as int)),
        decreases end,
    {
        assert(v@.take(end as int).drop_last() =~= v@.take(end - 1));
        end = end - 1;
    }
    let mut out = String::new();
    push_chars(&mut out, &v, 0, end);
    assert(v@.subrange(0, end as int) =~= v@.take(end as int));
    assert(v@.take(0) =~= Seq::<char>::empty());
    out
}

/// The body for `diff_text`, sent from `url`.
pub fn build_body(url: &str, diff_text: &str) -> (r: String)
    requires
        encode_utf8(diff_text@).len() <= usize::MAX,
    ensures
        r@ == notification_body(url@, diff_text@),
{
    let ghost bytes = encode_utf8(diff_text@);
    proof {
        encode_utf8_valid_utf8(diff_text@);
    }
    let total = diff_text.len();
    let mut body = url.to_owned();
    body.append("\n\n");
    if total > MAX_DIFF_BYTES {
        let mut cut: usize = MAX_DIFF_BYTES;
        proof {
            is_char_boundary_start_end_of_seq(bytes);
        }
        while !diff_text.is_char_boundary(cut)
            invariant
                0 <= cut <= MAX_DIFF_BYTES < bytes.len(),
                bytes == diff_text.spec_bytes(),
                valid_utf8(bytes),
                is_char_boundary(bytes, 0),
                boundary_at_or_below(bytes, cut as int) == boundary_at_or_below(
                    bytes,
                    MAX_DIFF_BYTES as int,
                ),
            decreases cut,
        {
            cut = cut - 1;
        }
        let (head, _) = diff_text.split_at(cut);
        proof {
            encode_utf8_decode_utf8(head@);
            assert(head.spec_bytes() == encode_utf8(head@));
            assert(head.spec_bytes() =~= bytes.subrange(0, cut as int));
            assert(bytes.take(cut as int) =~= bytes.subrange(0, cut as int));
            assert(decode_utf8(encode_utf8(head@)) == head@);
        }
        let ghost b0 = body@;
        body.append(head);
        body.append("\n\n... [diff truncated, ");
        push_decimal(&mut body, total as u64);
        body.append(" bytes total]");
        proof {
            assert(is_char_boundary(bytes, cut as int));
            assert(boundary_at_or_below(bytes, cut as int) == cut);
            assert(decode_utf8(bytes.take(cut as int)) == head@);
            assert(b0 == url@ + "\n\n"@);
            assert(total == bytes.len());
        }
    } else {
        body.append(diff_text);
    }
    body
}

/// The notification of a change of `target` whose diff is `diff_text`, or
/// `None` when the target has no ntfy topic. The title is the target's
/// `ntfy_title`, else its name.
pub fn change_notification(general: &GeneralConfig, target: &TargetConfig, diff_text: &str) -> (r: Option<
    Notification,
>)
    requires
        encode_utf8(diff_text@).len() <= usize::MAX,
    ensures
        target.ntfy_topic is None <==> r is None,
        r matches Some(n) ==> {
            &&& n.url@ == topic_url(server_for(*general, *target), target.ntfy_topic.unwrap()@)
            &&& n.title@ == match target.ntfy_title {
                Some(t) => t@,
                None => target.name@,
            }
            &&& n.body@ == notification_body(target.url@, diff_text@)
            &&& n.content_type@ == "text/plain; charset=utf-8"@
            &&& n.priority == target.ntfy_priority
            &&& n.tags@ == "warning"@
            &&& n.click@ == target.url@
        },
{
    let topic = match &target.ntfy_topic {
        Some(t) => t,
        None => return None,
    };
    let server = match &target.ntfy_server {
        Some(s) => s.as_str(),
        None => general.ntfy_server.as_str(),
    };
    let mut url = trimmed_server(server);
    url.append("/");
    url.append(topic.as_str());
    proof {
        reveal_strlit("/");
    }
    assert(url@ =~= topic_url(server_for(*general, *target), topic@));
    let title = match &target.ntfy_title {
        Some(t) => t.clone(),
        None => target.name.clone(),
    };
    let priority = match &target.ntfy_priority {
        Some(p) => Some(p.clone()),
        None => None,
    };
    Some(
        Notification {
            url,
            title,
            body: build_body(target.url.as_str(), diff_text),
            content_type: "text/plain; charset=utf-8".to_owned(),
            priority,
            tags: "warning".to_owned(),
            click: target.url.clone(),
        },
    )
}

/// A truncated body keeps a prefix of the diff of at most
/// `MAX_DIFF_BYTES` bytes.
pub proof fn lemma_truncated_prefix(diff: Seq<char>)
    requires
        encode_utf8(diff).len() > MAX_DIFF_BYTES,
    ensures
        ({
            let bytes = encode_utf8(diff);
            let kept = decode_utf8(bytes.take(boundary_at_or_below(bytes, MAX_DIFF_BYTES as int)));
            &&& encode_utf8(kept).len() <= MAX_DIFF_BYTES
            &&& diff.take(kept.len() as int) == kept
        }),
{
    let bytes = encode_utf8(diff);
    encode_utf8_valid_utf8(diff);
    is_char_boundary_start_end_of_seq(bytes);
    let cut = lemma_boundary(bytes, MAX_DIFF_BYTES as int);
    decode_utf8_split(bytes, cut);
    encode_utf8_decode_utf8(diff);
    let kept = decode_utf8(bytes.take(cut));
    assert(bytes.take(cut) =~= bytes.subrange(0, cut));
    vstd::utf8::valid_utf8_split(bytes, cut);
    vstd::utf8::decode_utf8_encode_utf8(bytes.subrange(0, cut));
    assert(diff =~= kept + decode_utf8(bytes.subrange(cut, bytes.len() as int)));
    assert(diff.take(kept.len() as int) =~= kept);
}

proof fn lemma_boundary(bytes: Seq<u8>, i: int) -> (cut: int)
    requires
        valid_utf8(bytes),
        0 <= i <= bytes.len(),
        is_char_boundary(bytes, 0),
    ensures
        cut == boundary_at_or_below(bytes, i),
        0 <= cut <= i,
        is_char_boundary(bytes, cut),
    decreases i,
{
    if i <= 0 || is_char_boundary(bytes, i) {
        i
    } else {
        lemma_boundary(bytes, i - 1)
    }
}

/// The monitored URL opens every notification body, followed by a blank
/// line, so it stays visible even when the diff is cut.
pub proof fn lemma_body_starts_with_url(url: Seq<char>, diff: Seq<char>)
    ensures
        notification_body(url, diff).len() >= url.len() + 2,
        notification_body(url, diff).take(url.len() + 2int) == url + seq!['\n', '\n'],
{
    reveal_strlit("\n\n");
    let b = notification_body(url, diff);
    assert("\n\n"@ =~= seq!['\n', '\n']);
    assert(b.take(url.len() + 2int) =~= url + seq!['\n', '\n']);
}

} // verus!
