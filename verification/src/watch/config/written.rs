//! A configuration file as it is written: by hand rather than from the values,
//! so that every value can carry the sentence that explains it.
use std::time::Duration;
use vstd::prelude::*;
use vstd::string::*;

use crate::clock::duration_secs;
use crate::duration;
use crate::duration::spelling;
use crate::number::{decimal, hex_digit, push_i64, push_u64, signed_decimal, small_hex};
use crate::text::chars_of;
use crate::watch::config::SCHEMA;

verus! {

/// Whether a character is one of the control characters of ASCII.
pub open spec fn is_bare_control(c: char) -> bool {
    (c as u32) < 0x20 || c as u32 == 0x7f
}

/// A character inside a quoted value. A control character cannot stand there as it
/// is, so one without a short escape is written by its number.
pub open spec fn escaped(c: char) -> Seq<char> {
    if c == '"' {
        seq!['\\', '"']
    } else if c == '\\' {
        seq!['\\', '\\']
    } else if c == '\n' {
        seq!['\\', 'n']
    } else if c == '\r' {
        seq!['\\', 'r']
    } else if c == '\t' {
        seq!['\\', 't']
    } else if is_bare_control(c) {
        seq![
            '\\',
            'u',
            '0',
            '0',
            small_hex(c as int / 16),
            small_hex(c as int % 16),
        ]
    } else {
        seq![c]
    }
}

/// The characters of a value, inside its quotes.
pub open spec fn escaped_text(s: Seq<char>) -> Seq<char>
    decreases s.len(),
{
    if s.len() == 0 {
        Seq::empty()
    } else {
        escaped_text(s.drop_last()) + escaped(s.last())
    }
}

/// A value as a TOML basic string.
pub open spec fn quoted(s: Seq<char>) -> Seq<char> {
    seq!['"'] + escaped_text(s) + seq!['"']
}

/// A TOML basic string. The values here come from a person, so a quote or a
/// backslash in one has to survive being written and read back.
pub fn quote(value: &str) -> (r: String)
    ensures
        r@ == quoted(value@),
{
    let mut out = String::new();
    push_quoted(&mut out, value);
    assert(out@ == quoted(value@));
    out
}

fn push_numbered(out: &mut String, c: char)
    requires
        is_bare_control(c),
    ensures
        final(out)@ == old(out)@ + seq![
            '\\',
            'u',
            '0',
            '0',
            small_hex(c as int / 16),
            small_hex(c as int % 16),
        ],
{
    let number: u32 = c as u32;
    let code: u8 = number as u8;
    out.push('\\');
    out.push('u');
    out.push('0');
    out.push('0');
    out.push(hex_digit(code / 16));
    out.push(hex_digit(code % 16));
}

fn push_quoted(out: &mut String, value: &str)
    ensures
        final(out)@ == old(out)@ + quoted(value@),
{
    let chars = chars_of(value);
    let ghost start = out@;
    out.push('"');
    let mut i: usize = 0;
    assert(out@ == start + seq!['"'] + escaped_text(chars@.take(0)));
    while i < chars.len()
        invariant
            i <= chars@.len(),
            chars@ == value@,
            out@ == start + seq!['"'] + escaped_text(chars@.take(i as int)),
        decreases chars@.len() - i,
    {
        let c = chars[i];
        let ghost before = out@;
        if c == '"' {
            out.push('\\');
            out.push('"');
        } else if c == '\\' {
            out.push('\\');
            out.push('\\');
        } else if c == '\n' {
            out.push('\\');
            out.push('n');
        } else if c == '\r' {
            out.push('\\');
            out.push('r');
        } else if c == '\t' {
            out.push('\\');
            out.push('t');
        } else if (c as u32) < 0x20 || c as u32 == 0x7f {
            push_numbered(out, c);
        } else {
            out.push(c);
        }
        proof {
            assert(out@ =~= before + escaped(c));
            assert(chars@.take(i + 1).drop_last() == chars@.take(i as int));
            assert(out@ =~= start + seq!['"'] + escaped_text(chars@.take(i + 1)));
        }
        i = i + 1;
    }
    assert(chars@.take(chars@.len() as int) == chars@);
    out.push('"');
    assert(out@ =~= start + quoted(value@));
}

/// How a flag is written.
pub open spec fn flag_text(flag: bool) -> Seq<char> {
    if flag {
        "true"@
    } else {
        "false"@
    }
}

/// The table of headers.
pub open spec fn headers_text(headers: Seq<(String, String)>) -> Seq<char>
    decreases headers.len(),
{
    if headers.len() == 0 {
        "\n[webhook.headers]\n"@
    } else {
        headers_text(headers.drop_last()) + quoted(headers.last().0@) + " = "@ + quoted(
            headers.last().1@,
        ) + "\n"@
    }
}

/// The part about where to report to.
pub open spec fn webhook_text(
    url: Seq<char>,
    heartbeat: bool,
    headers: Seq<(String, String)>,
    signed: bool,
) -> Seq<char> {
    "\n[webhook]\n"@ + "url = "@ + quoted(url) + "\n"@
        + "# Send a report even when nothing changed, so something watching for\n# silence can tell \"nothing happened\" from \"it stopped running\".\n"@
        + "heartbeat = "@ + flag_text(heartbeat) + "\n"@ + (if signed {
        "# The body is signed: the key is in the system keyring, not here.\n# So is any token below that you gave to \"snob watch setup\".\n"@
    } else {
        Seq::empty()
    }) + (if headers.len() > 0 {
        headers_text(headers)
    } else {
        Seq::empty()
    })
}

/// The part about one account.
pub open spec fn account_text(account: (String, Option<i64>)) -> Seq<char> {
    "\n[[account]]\n"@ + "target = "@ + quoted(account.0@) + "\n"@ + match account.1 {
        Some(at) =>
            "# You were asked whether this may read that account's lists, and you\n# said yes. A scheduled run cannot ask, so it reads this instead.\n"@
                + "[account.consent]\n"@ + "agreed_at = "@ + signed_decimal(at as int) + "\n"@,
        None => Seq::empty(),
    }
}

/// The parts about the accounts.
pub open spec fn accounts_text(accounts: Seq<(String, Option<i64>)>) -> Seq<char>
    decreases accounts.len(),
{
    if accounts.len() == 0 {
        Seq::empty()
    } else {
        accounts_text(accounts.drop_last()) + account_text(accounts.last())
    }
}

/// The part about how far a run may be pushed.
pub open spec fn jitter_text(jitter: Duration) -> Seq<char> {
    "\n# How far each run may be pushed past its due moment, so the walks do\n# not start on the same second every day. \"0\" turns it off.\n"@
        + "jitter = \""@ + spelling(duration_secs(jitter)) + "\"\n"@
}

/// What a file says before anything that was asked.
pub open spec fn opening_text() -> Seq<char> {
    "# snob watch. Written by \"snob watch setup\", and safe to edit by hand.\n#\n# Times are your local ones. Durations are written the way you would say\n# them: 30m, 6h, 2d, 2w.\n\n"@
        + "schema = "@ + decimal(SCHEMA as nat) + "\n\n"@ + "# When to run.\n"@
}

/// A whole file.
pub open spec fn file_text(
    schedule_line: Seq<char>,
    jitter: Option<Duration>,
    webhook: Option<Seq<char>>,
    heartbeat: bool,
    headers: Seq<(String, String)>,
    accounts: Seq<(String, Option<i64>)>,
    signed: bool,
) -> Seq<char> {
    opening_text() + schedule_line + "\n"@ + (match jitter {
        Some(jitter) => jitter_text(jitter),
        None => Seq::empty(),
    }) + (match webhook {
        Some(url) => webhook_text(url, heartbeat, headers, signed),
        None => Seq::empty(),
    }) + accounts_text(accounts)
}

fn push_webhook(
    out: &mut String,
    url: &str,
    heartbeat: bool,
    headers: &[(String, String)],
    signed: bool,
)
    ensures
        final(out)@ == old(out)@ + webhook_text(url@, heartbeat, headers@, signed),
{
    let ghost start = out@;
    out.append("\n[webhook]\n");
    out.append("url = ");
    push_quoted(out, url);
    out.append("\n");
    out.append(
        "# Send a report even when nothing changed, so something watching for\n# silence can tell \"nothing happened\" from \"it stopped running\".\n",
    );
    out.append("heartbeat = ");
    if heartbeat {
        out.append("true");
    } else {
        out.append("false");
    }
    out.append("\n");
    let ghost plain = "\n[webhook]\n"@ + "url = "@ + quoted(url@) + "\n"@
        + "# Send a report even when nothing changed, so something watching for\n# silence can tell \"nothing happened\" from \"it stopped running\".\n"@
        + "heartbeat = "@ + flag_text(heartbeat) + "\n"@;
    assert(out@ =~= start + plain);
    if signed {
        out.append(
            "# The body is signed: the key is in the system keyring, not here.\n# So is any token below that you gave to \"snob watch setup\".\n",
        );
    }
    let ghost with_key = plain + (if signed {
        "# The body is signed: the key is in the system keyring, not here.\n# So is any token below that you gave to \"snob watch setup\".\n"@
    } else {
        Seq::empty()
    });
    assert(out@ =~= start + with_key);
    if headers.len() > 0 {
        out.append("\n[webhook.headers]\n");
        let mut i: usize = 0;
        assert(out@ =~= start + with_key + headers_text(headers@.take(0)));
        while i < headers.len()
            invariant
                i <= headers@.len(),
                out@ == start + with_key + headers_text(headers@.take(i as int)),
            decreases headers@.len() - i,
        {
            let ghost before = out@;
            push_quoted(out, headers[i].0.as_str());
            out.append(" = ");
            push_quoted(out, headers[i].1.as_str());
            out.append("\n");
            proof {
                assert(headers@.take(i + 1).drop_last() == headers@.take(i as int));
                let line = quoted(headers@[i as int].0@) + " = "@ + quoted(headers@[i as int].1@)
                    + "\n"@;
                assert(out@ =~= before + line);
                assert(headers_text(headers@.take(i + 1)) =~= headers_text(headers@.take(i as int))
                    + line);
                assert(out@ =~= start + with_key + headers_text(headers@.take(i + 1)));
            }
            i = i + 1;
        }
        assert(headers@.take(headers@.len() as int) == headers@);
    }
    assert(out@ =~= start + webhook_text(url@, heartbeat, headers@, signed));
}

fn push_account(out: &mut String, account: &(String, Option<i64>))
    ensures
        final(out)@ == old(out)@ + account_text(*account),
{
    let ghost start = out@;
    out.append("\n[[account]]\n");
    out.append("target = ");
    push_quoted(out, account.0.as_str());
    out.append("\n");
    if let Some(at) = account.1 {
        out.append(
            "# You were asked whether this may read that account's lists, and you\n# said yes. A scheduled run cannot ask, so it reads this instead.\n",
        );
        out.append("[account.consent]\n");
        out.append("agreed_at = ");
        push_i64(out, at);
        out.append("\n");
    }
    assert(out@ =~= start + account_text(*account));
}

/// Renders a configuration file a person can read and edit.
pub fn template(
    schedule_line: &str,
    jitter: Option<Duration>,
    webhook: Option<&str>,
    heartbeat: bool,
    headers: &[(String, String)],
    accounts: &[(String, Option<i64>)],
    signed: bool,
) -> (r: String)
    ensures
        r@ == file_text(
            schedule_line@,
            jitter,
            match webhook {
                Some(url) => Some(url@),
                None => None,
            },
            heartbeat,
            headers@,
            accounts@,
            signed,
        ),
{
    let mut out = String::new();
    out.append(
        "# snob watch. Written by \"snob watch setup\", and safe to edit by hand.\n#\n# Times are your local ones. Durations are written the way you would say\n# them: 30m, 6h, 2d, 2w.\n\n",
    );
    out.append("schema = ");
    push_u64(&mut out, SCHEMA as u64);
    out.append("\n\n");
    out.append("# When to run.\n");
    assert(out@ =~= opening_text());
    out.append(schedule_line);
    out.append("\n");
    let ghost timed = opening_text() + schedule_line@ + "\n"@;
    assert(out@ =~= timed);
    let ghost jittered = timed + (match jitter {
        Some(jitter) => jitter_text(jitter),
        None => Seq::empty(),
    });
    if let Some(jitter) = jitter {
        out.append(
            "\n# How far each run may be pushed past its due moment, so the walks do\n# not start on the same second every day. \"0\" turns it off.\n",
        );
        out.append("jitter = \"");
        out.append(duration::format(jitter).as_str());
        out.append("\"\n");
    }
    assert(out@ =~= jittered);
    let ghost reported = jittered + (match webhook {
        Some(url) => webhook_text(url@, heartbeat, headers@, signed),
        None => Seq::empty(),
    });
    if let Some(url) = webhook {
        push_webhook(&mut out, url, heartbeat, headers, signed);
    }
    assert(out@ =~= reported);
    let mut i: usize = 0;
    assert(out@ =~= reported + accounts_text(accounts@.take(0)));
    while i < accounts.len()
        invariant
            i <= accounts@.len(),
            out@ == reported + accounts_text(accounts@.take(i as int)),
        decreases accounts@.len() - i,
    {
        push_account(&mut out, &accounts[i]);
        proof {
            assert(accounts@.take(i + 1).drop_last() == accounts@.take(i as int));
            assert(out@ =~= reported + accounts_text(accounts@.take(i + 1)));
        }
        i = i + 1;
    }
    assert(accounts@.take(accounts@.len() as int) == accounts@);
    out
}

/// What a hexadecimal digit stands for.
pub open spec fn hex_value(c: char) -> Option<int> {
    if '0' <= c <= '9' {
        Some(c as int - '0' as int)
    } else if 'a' <= c <= 'f' {
        Some(c as int - 'a' as int + 10)
    } else if 'A' <= c <= 'F' {
        Some(c as int - 'A' as int + 10)
    } else {
        None
    }
}

/// The character that four hexadecimal digits number.
pub open spec fn numbered(s: Seq<char>) -> Option<char> {
    match (hex_value(s[0]), hex_value(s[1]), hex_value(s[2]), hex_value(s[3])) {
        (Some(a), Some(b), Some(c), Some(d)) => {
            let code = 4096 * a + 256 * b + 16 * c + d;
            if code < 0xd800 || code > 0xdfff {
                Some(code as char)
            } else {
                None
            }
        },
        _ => None,
    }
}

/// What the inside of a quoted value stands for, by the escapes of a TOML basic
/// string that are written here. A bare quote or control character has no place in
/// one, a tab aside.
pub open spec fn unescaped(s: Seq<char>) -> Option<Seq<char>>
    decreases s.len(),
{
    if s.len() == 0 {
        Some(Seq::empty())
    } else if s[0] == '"' || is_bare_control(s[0]) && s[0] != '\t' {
        None
    } else if s[0] != '\\' {
        match unescaped(s.skip(1)) {
            Some(rest) => Some(seq![s[0]] + rest),
            None => None,
        }
    } else if s.len() < 2 {
        None
    } else if s[1] == 'u' {
        if s.len() < 6 {
            None
        } else {
            match (numbered(s.subrange(2, 6)), unescaped(s.skip(6))) {
                (Some(c), Some(rest)) => Some(seq![c] + rest),
                _ => None,
            }
        }
    } else {
        let c = if s[1] == 'n' {
            Some('\n')
        } else if s[1] == 'r' {
            Some('\r')
        } else if s[1] == 't' {
            Some('\t')
        } else if s[1] == '"' || s[1] == '\\' {
            Some(s[1])
        } else {
            None
        };
        match (c, unescaped(s.skip(2))) {
            (Some(c), Some(rest)) => Some(seq![c] + rest),
            _ => None,
        }
    }
}

proof fn lemma_escaped_front(s: Seq<char>)
    requires
        s.len() > 0,
    ensures
        escaped_text(s) == escaped(s[0]) + escaped_text(s.skip(1)),
    decreases s.len(),
{
    if s.len() == 1 {
        assert(s.drop_last() == Seq::<char>::empty());
        assert(s.skip(1) == Seq::<char>::empty());
        assert(escaped_text(s) =~= escaped(s[0]) + escaped_text(s.skip(1)));
    } else {
        lemma_escaped_front(s.drop_last());
        assert(s.drop_last().skip(1) == s.skip(1).drop_last());
        assert(s.skip(1).last() == s.last());
        assert(escaped_text(s) =~= escaped(s[0]) + escaped_text(s.skip(1)));
    }
}

proof fn lemma_number_of_control(c: char)
    requires
        is_bare_control(c),
    ensures
        numbered(seq!['0', '0', small_hex(c as int / 16), small_hex(c as int % 16)]) == Some(c),
{
    let high = c as int / 16;
    let low = c as int % 16;
    assert(hex_value(small_hex(high)) == Some(high));
    assert(hex_value(small_hex(low)) == Some(low));
}

/// A value reads back from between its quotes as it was, and the quote that ends
/// it is the first that is not escaped.
pub proof fn a_quoted_value_reads_back(s: Seq<char>)
    ensures
        unescaped(escaped_text(s)) == Some(s),
    decreases s.len(),
{
    if s.len() == 0 {
        assert(s =~= Seq::<char>::empty());
    } else {
        lemma_escaped_front(s);
        a_quoted_value_reads_back(s.skip(1));
        let e = escaped(s[0]);
        let all = escaped_text(s);
        assert(all.skip(e.len() as int) =~= escaped_text(s.skip(1)));
        assert(all[0] == e[0]);
        if e.len() > 1 {
            assert(all[1] == e[1]);
        }
        if e.len() == 6 {
            assert(all.subrange(2, 6) =~= e.subrange(2, 6));
            lemma_number_of_control(s[0]);
        }
        assert(seq![s[0]] + s.skip(1) =~= s);
    }
}

} // verus!
