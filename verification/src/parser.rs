//! The configuration grammar: line splitting, trimming, tokenizing, and the
//! line-oriented parse itself, stated as one spec-level state machine and
//! implemented by a verified executable parser.

use vstd::prelude::*;

use crate::chars::{is_space, is_space_char, lower_seq, string_from_chars, chars_of, parse_u32_chars};
use crate::host::{
    apply_setting, fresh_host, key_kind, new_host, setting_from_chars, Host, HostV, SshConfError,
    hosts_view,
};

verus! {

/// The position of the first newline, or the length when there is none.
pub open spec fn find_nl(s: Seq<char>) -> nat
    decreases s.len(),
{
    if s.len() == 0 {
        0
    } else if s[0] == '\n' {
        0
    } else {
        (find_nl(s.drop_first()) + 1) as nat
    }
}

/// The position of the first whitespace character, or the length when there
/// is none.
pub open spec fn find_space(s: Seq<char>) -> nat
    decreases s.len(),
{
    if s.len() == 0 {
        0
    } else if is_space_char(s[0]) {
        0
    } else {
        (find_space(s.drop_first()) + 1) as nat
    }
}

/// One trailing carriage return is not part of a line.
pub open spec fn strip_cr(l: Seq<char>) -> Seq<char> {
    if l.len() > 0 && l.last() == '\r' {
        l.drop_last()
    } else {
        l
    }
}

/// The lines of a text: split on newlines, each line without a trailing
/// carriage return; a final newline ends the last line rather than opening
/// an empty one.
pub open spec fn lines_of(s: Seq<char>) -> Seq<Seq<char>>
    decreases s.len(),
{
    if s.len() == 0 {
        Seq::empty()
    } else {
        let i = find_nl(s) as int;
        if i >= s.len() {
            seq![strip_cr(s)]
        } else {
            seq![strip_cr(s.take(i))] + lines_of(s.skip(i + 1))
        }
    }
}

pub open spec fn trim_start(s: Seq<char>) -> Seq<char>
    decreases s.len(),
{
    if s.len() > 0 && is_space_char(s[0]) {
        trim_start(s.drop_first())
    } else {
        s
    }
}

pub open spec fn trim_end(s: Seq<char>) -> Seq<char>
    decreases s.len(),
{
    if s.len() > 0 && is_space_char(s.last()) {
        trim_end(s.drop_last())
    } else {
        s
    }
}

/// A line with its leading and trailing whitespace removed.
pub open spec fn trim_spec(s: Seq<char>) -> Seq<char> {
    trim_end(trim_start(s))
}

/// The first whitespace-separated token.
pub open spec fn first_token(s: Seq<char>) -> Seq<char> {
    let t = trim_start(s);
    t.take(find_space(t) as int)
}

pub open spec fn host_prefix() -> Seq<char> {
    seq!['H', 'o', 's', 't', ' ']
}

/// A trimmed line that opens a block: it begins with the literal `Host `.
pub open spec fn is_host_line(t: Seq<char>) -> bool {
    t.len() >= 5 && t.subrange(0, 5) == host_prefix()
}

pub open spec fn invalid_format_msg() -> Seq<char> {
    "Invalid config line format"@
}

pub open spec fn orphan_msg() -> Seq<char> {
    "Setting outside of Host block"@
}

/// A located parse error: a 1-based line number and a message.
#[verifier::ext_equal]
pub struct PErr {
    pub line: int,
    pub msg: Seq<char>,
}

/// The parser's state between lines: the finished records and the open one.
#[verifier::ext_equal]
pub struct PState {
    pub hosts: Seq<HostV>,
    pub cur: Option<HostV>,
}

pub open spec fn init_state() -> PState {
    PState { hosts: Seq::empty(), cur: None }
}

/// The finished records once the open block, if any, is closed.
pub open spec fn close_open(st: PState) -> Seq<HostV> {
    match st.cur {
        Some(h) => st.hosts.push(h),
        None => st.hosts,
    }
}

/// What one line does to the parser's state. Blank and comment lines are
/// skipped; a `Host ` line closes the open block and opens a new one named
/// by the first token after the prefix; any other line must be a recognized
/// `key value` setting inside an open block, and otherwise is an error at
/// the line's 1-based number.
pub open spec fn line_step(st: PState, line: Seq<char>, idx: int) -> Result<PState, PErr> {
    let t = trim_spec(line);
    if t.len() == 0 || t[0] == '#' {
        Ok(st)
    } else if is_host_line(t) {
        Ok(
            (PState {
                hosts: close_open(st),
                cur: Some(fresh_host(first_token(t.skip(5)))),
            }),
        )
    } else if st.cur is Some {
        let j = find_space(t) as int;
        if j >= t.len() {
            Err((PErr { line: idx + 1, msg: invalid_format_msg() }))
        } else {
            match key_kind(lower_seq(t.take(j))) {
                Some(k) => Ok(
                    (PState {
                        hosts: st.hosts,
                        cur: Some(apply_setting(st.cur->0, k, t.skip(j + 1))),
                    }),
                ),
                None => Err((PErr { line: idx + 1, msg: invalid_format_msg() })),
            }
        }
    } else {
        Err((PErr { line: idx + 1, msg: orphan_msg() }))
    }
}

/// The parser's state after the first `i` lines.
pub open spec fn run_upto(lines: Seq<Seq<char>>, i: int) -> Result<PState, PErr>
    decreases i,
{
    if i <= 0 {
        Ok(init_state())
    } else {
        match run_upto(lines, i - 1) {
            Ok(st) => line_step(st, lines[i - 1], i - 1),
            Err(e) => Err(e),
        }
    }
}

/// What parsing a whole text returns: the ordered records of every block,
/// or the first error.
pub open spec fn spec_parse(text: Seq<char>) -> Result<Seq<HostV>, PErr> {
    let lines = lines_of(text);
    match run_upto(lines, lines.len() as int) {
        Ok(st) => Ok(close_open(st)),
        Err(e) => Err(e),
    }
}

/// Once a line has failed, the whole parse fails with that error.
pub proof fn lemma_run_err_persists(lines: Seq<Seq<char>>, i: int, j: int)
    requires
        0 <= i <= j,
        run_upto(lines, i) is Err,
    ensures
        run_upto(lines, j) == run_upto(lines, i),
    decreases j - i,
{
    if j > i {
        lemma_run_err_persists(lines, i, j - 1);
    }
}

/// A line the parser skips everywhere: blank, or a comment.
pub open spec fn is_skippable(l: Seq<char>) -> bool {
    trim_spec(l).len() == 0 || trim_spec(l)[0] == '#'
}

/// A setting line with an unrecognized key inside an open block fails the
/// parse at that line's 1-based number.
pub proof fn lemma_unknown_key_rejected(text: Seq<char>, i: int, st: PState)
    requires
        0 <= i < lines_of(text).len(),
        run_upto(lines_of(text), i) == Ok::<PState, PErr>(st),
        st.cur is Some,
        !is_skippable(lines_of(text)[i]),
        !is_host_line(trim_spec(lines_of(text)[i])),
        find_space(trim_spec(lines_of(text)[i])) < trim_spec(lines_of(text)[i]).len(),
        key_kind(
            lower_seq(
                trim_spec(lines_of(text)[i]).take(
                    find_space(trim_spec(lines_of(text)[i])) as int,
                ),
            ),
        ) is None,
    ensures
        spec_parse(text) == Err::<Seq<HostV>, PErr>(
            (PErr { line: i + 1, msg: invalid_format_msg() }),
        ),
{
    let lines = lines_of(text);
    assert(run_upto(lines, i + 1) == Err::<PState, PErr>(
        (PErr { line: i + 1, msg: invalid_format_msg() }),
    ));
    lemma_run_err_persists(lines, i + 1, lines.len() as int);
}

proof fn lemma_run_skippable(lines: Seq<Seq<char>>, i: int)
    requires
        0 <= i <= lines.len(),
        forall|j: int| 0 <= j < i ==> is_skippable(lines[j]),
    ensures
        run_upto(lines, i) == Ok::<PState, PErr>(init_state()),
    decreases i,
{
    if i > 0 {
        lemma_run_skippable(lines, i - 1);
    }
}

/// A setting line before any `Host` line fails the parse with the
/// out-of-block message at that line's 1-based number.
pub proof fn lemma_orphan_setting_rejected(text: Seq<char>, i: int)
    requires
        0 <= i < lines_of(text).len(),
        forall|j: int| 0 <= j < i ==> is_skippable(lines_of(text)[j]),
        !is_skippable(lines_of(text)[i]),
        !is_host_line(trim_spec(lines_of(text)[i])),
    ensures
        spec_parse(text) == Err::<Seq<HostV>, PErr>((PErr { line: i + 1, msg: orphan_msg() })),
{
    let lines = lines_of(text);
    lemma_run_skippable(lines, i);
    assert(run_upto(lines, i + 1) == Err::<PState, PErr>(
        (PErr { line: i + 1, msg: orphan_msg() }),
    ));
    lemma_run_err_persists(lines, i + 1, lines.len() as int);
}

pub proof fn lemma_find_nl_at(s: Seq<char>, k: int)
    requires
        0 <= k <= s.len(),
        forall|i: int| 0 <= i < k ==> s[i] != '\n',
        k < s.len() ==> s[k] == '\n',
    ensures
        find_nl(s) == k,
    decreases s.len(),
{
    if s.len() == 0 {
    } else if s[0] == '\n' {
    } else {
        assert(k >= 1);
        lemma_find_nl_at(s.drop_first(), k - 1);
    }
}

pub proof fn lemma_find_space_at(s: Seq<char>, k: int)
    requires
        0 <= k <= s.len(),
        forall|i: int| 0 <= i < k ==> !is_space_char(s[i]),
        k < s.len() ==> is_space_char(s[k]),
    ensures
        find_space(s) == k,
    decreases s.len(),
{
    if s.len() == 0 {
    } else if is_space_char(s[0]) {
    } else {
        assert(k >= 1);
        lemma_find_space_at(s.drop_first(), k - 1);
    }
}

pub proof fn lemma_trim_start_at(s: Seq<char>, a: int)
    requires
        0 <= a <= s.len(),
        forall|i: int| 0 <= i < a ==> is_space_char(s[i]),
        a < s.len() ==> !is_space_char(s[a]),
    ensures
        trim_start(s) == s.skip(a),
    decreases s.len(),
{
    if s.len() > 0 && is_space_char(s[0]) {
        assert(a >= 1);
        lemma_trim_start_at(s.drop_first(), a - 1);
        assert(s.drop_first().skip(a - 1) =~= s.skip(a));
    } else {
        assert(a == 0);
        assert(s.skip(0) =~= s);
    }
}

pub proof fn lemma_trim_end_at(s: Seq<char>, b: int)
    requires
        0 <= b <= s.len(),
        forall|i: int| b <= i < s.len() ==> is_space_char(s[i]),
        b > 0 ==> !is_space_char(s[b - 1]),
    ensures
        trim_end(s) == s.take(b),
    decreases s.len(),
{
    if s.len() > 0 && is_space_char(s.last()) {
        assert(b < s.len());
        lemma_trim_end_at(s.drop_last(), b);
        assert(s.drop_last().take(b) =~= s.take(b));
    } else {
        assert(b == s.len());
        assert(s.take(b) =~= s);
    }
}

/// A text already free of leading and trailing whitespace trims to itself.
pub proof fn lemma_trim_noop(s: Seq<char>)
    requires
        s.len() > 0,
        !is_space_char(s[0]),
        !is_space_char(s.last()),
    ensures
        trim_spec(s) == s,
{
    lemma_trim_start_at(s, 0);
    assert(s.skip(0) =~= s);
    lemma_trim_end_at(s, s.len() as int);
}

/// Splits a character slice into its lines.
fn split_lines(v: &[char]) -> (r: Vec<Vec<char>>)
    ensures
        r@.map_values(|l: Vec<char>| l@) == lines_of(v@),
{
    let mut out: Vec<Vec<char>> = Vec::new();
    let mut pos: usize = 0;
    proof {
        assert(v@.skip(0) =~= v@);
        assert(out@.map_values(|l: Vec<char>| l@) + lines_of(v@.skip(0)) =~= lines_of(v@));
    }
    while pos < v.len()
        invariant
            0 <= pos <= v@.len(),
            out@.map_values(|l: Vec<char>| l@) + lines_of(v@.skip(pos as int)) == lines_of(v@),
        decreases v@.len() - pos,
    {
        let ghost rest = v@.skip(pos as int);
        let mut j = pos;
        while j < v.len() && v[j] != '\n'
            invariant
                pos <= j <= v@.len(),
                forall|k: int| pos <= k < j ==> v@[k] != '\n',
            decreases v@.len() - j,
        {
            j += 1;
        }
        proof {
            assert forall|i: int| 0 <= i < j - pos implies rest[i] != '\n' by {
                assert(rest[i] == v@[pos + i]);
            }
            if j < v.len() {
                assert(rest[j - pos] == v@[j as int]);
            }
            lemma_find_nl_at(rest, j - pos);
        }
        let mut end = j;
        if end > pos && v[end - 1] == '\r' {
            end -= 1;
        }
        let line = vstd::slice::slice_to_vec(vstd::slice::slice_subrange(v, pos, end));
        proof {
            if j < v.len() {
                assert(strip_cr(rest.take(j - pos)) =~= v@.subrange(pos as int, end as int));
                assert(rest.skip(j - pos + 1) =~= v@.skip(j + 1));
                assert(lines_of(rest) == seq![strip_cr(rest.take(j - pos))] + lines_of(
                    v@.skip(j + 1),
                ));
            } else {
                assert(strip_cr(rest) =~= v@.subrange(pos as int, end as int));
                assert(v@.skip(v@.len() as int) =~= Seq::<char>::empty());
                assert(lines_of(rest) == seq![strip_cr(rest)]);
            }
        }
        out.push(line);
        let ghost old_pos = pos;
        if j < v.len() {
            pos = j + 1;
        } else {
            pos = j;
        }
        proof {
            assert(out@.map_values(|l: Vec<char>| l@) =~= out@.drop_last().map_values(
                |l: Vec<char>| l@,
            ).push(v@.subrange(old_pos as int, end as int)));
            assert(out@.map_values(|l: Vec<char>| l@) + lines_of(v@.skip(pos as int)) =~= lines_of(
                v@,
            ));
        }
    }
    proof {
        assert(v@.skip(v@.len() as int) =~= Seq::<char>::empty());
        assert(out@.map_values(|l: Vec<char>| l@) =~= lines_of(v@));
    }
    out
}

/// The image of the optional open block.
pub open spec fn opt_host_view(o: Option<Host>) -> Option<HostV> {
    match o {
        Some(h) => Some(h@),
        None => None,
    }
}

fn invalid_format_string() -> (r: String)
    ensures
        r@ == invalid_format_msg(),
{
    proof {
        reveal_strlit("Invalid config line format");
    }
    "Invalid config line format".to_owned()
}

fn orphan_string() -> (r: String)
    ensures
        r@ == orphan_msg(),
{
    proof {
        reveal_strlit("Setting outside of Host block");
    }
    "Setting outside of Host block".to_owned()
}

/// Parses configuration text into the ordered host records, or the first
/// grammar error with its 1-based line number. The result is exactly what
/// the spec-level parse of the same text gives.
pub fn parse_config(content: &str) -> (r: Result<Vec<Host>, SshConfError>)
    ensures
        match r {
            Ok(hosts) => spec_parse(content@) == Ok::<Seq<HostV>, PErr>(hosts_view(hosts@)),
            Err(e) => e matches SshConfError::ParseError(ln, msg) && spec_parse(content@)
                == Err::<Seq<HostV>, PErr>((PErr { line: ln as int, msg: msg@ })),
        },
{
    let chars = chars_of(content);
    let lines = split_lines(chars.as_slice());
    let ghost gl = lines_of(content@);
    let mut hosts: Vec<Host> = Vec::new();
    let mut cur: Option<Host> = None;
    let mut i: usize = 0;
    proof {
        assert(hosts_view(hosts@) =~= Seq::<HostV>::empty());
        assert((PState { hosts: hosts_view(hosts@), cur: opt_host_view(cur) }) =~= init_state());
    }
    while i < lines.len()
        invariant
            0 <= i <= lines@.len(),
            lines@.map_values(|l: Vec<char>| l@) == gl,
            gl == lines_of(content@),
            run_upto(gl, i as int) == Ok::<PState, PErr>(
                (PState { hosts: hosts_view(hosts@), cur: opt_host_view(cur) }),
            ),
        decreases lines@.len() - i,
    {
        let ghost st = PState { hosts: hosts_view(hosts@), cur: opt_host_view(cur) };
        let ghost gline = gl[i as int];
        let t = trim_slice(lines[i].as_slice());
        proof {
            assert(gline == lines@.map_values(|l: Vec<char>| l@)[i as int]);
            assert(t@ == trim_spec(gline));
        }
        if t.len() == 0 || t[0] == '#' {
            proof {
                assert(line_step(st, gline, i as int) == Ok::<PState, PErr>(st));
            }
        } else if t.len() >= 5 && t[0] == 'H' && t[1] == 'o' && t[2] == 's' && t[3] == 't' && t[4]
            == ' ' {
            proof {
                assert(t@.subrange(0, 5) =~= host_prefix());
                assert(is_host_line(t@));
            }
            let prev = cur;
            cur = None;
            let ghost hosts0 = hosts@;
            match prev {
                Some(h) => hosts.push(h),
                None => {},
            }
            proof {
                assert(hosts_view(hosts@) =~= close_open(st));
            }
            let rest = vstd::slice::slice_subrange(t, 5, t.len());
            let mut a: usize = 0;
            while a < rest.len() && is_space(rest[a])
                invariant
                    0 <= a <= rest@.len(),
                    forall|k: int| 0 <= k < a ==> is_space_char(rest@[k]),
                decreases rest@.len() - a,
            {
                a += 1;
            }
            let mut j = a;
            while j < rest.len() && !is_space(rest[j])
                invariant
                    a <= j <= rest@.len(),
                    forall|k: int| a <= k < j ==> !is_space_char(rest@[k]),
                decreases rest@.len() - j,
            {
                j += 1;
            }
            let tok = vstd::slice::slice_subrange(rest, a, j);
            proof {
                lemma_trim_start_at(rest@, a as int);
                let u = rest@.skip(a as int);
                assert forall|k: int| 0 <= k < j - a implies !is_space_char(u[k]) by {
                    assert(u[k] == rest@[a + k]);
                }
                if j < rest@.len() {
                    assert(u[j - a] == rest@[j as int]);
                }
                lemma_find_space_at(u, j - a);
                assert(u.take(j - a) =~= rest@.subrange(a as int, j as int));
                assert(rest@ == t@.skip(5));
                assert(first_token(t@.skip(5)) == tok@);
            }
            let id = string_from_chars(tok);
            cur = Some(new_host(id));
            proof {
                assert(line_step(st, gline, i as int) == Ok::<PState, PErr>(
                    (PState { hosts: hosts_view(hosts@), cur: opt_host_view(cur) }),
                ));
            }
        } else {
            let taken = cur;
            cur = None;
            match taken {
                Some(h) => {
                    let mut h = h;
                    let ghost h0 = h@;
                    let mut j: usize = 0;
                    while j < t.len() && !is_space(t[j])
                        invariant
                            0 <= j <= t@.len(),
                            forall|k: int| 0 <= k < j ==> !is_space_char(t@[k]),
                        decreases t@.len() - j,
                    {
                        j += 1;
                    }
                    proof {
                        lemma_find_space_at(t@, j as int);
                    }
                    if j == t.len() {
                        proof {
                            lemma_run_err_persists(gl, i + 1, gl.len() as int);
                        }
                        return Err(SshConfError::ParseError(i + 1, invalid_format_string()));
                    }
                    let key = vstd::slice::slice_subrange(t, 0, j);
                    let value = vstd::slice::slice_subrange(t, j + 1, t.len());
                    proof {
                        assert(key@ == t@.take(j as int));
                        assert(value@ == t@.skip(j + 1));
                    }
                    match setting_from_chars(key) {
                        Some(k) => {
                            match k {
                                crate::host::SshSetting::ProxyJump => {
                                    h.proxy_jump = Some(string_from_chars(value));
                                },
                                crate::host::SshSetting::HostName => {
                                    h.host_name = Some(string_from_chars(value));
                                },
                                crate::host::SshSetting::User => {
                                    h.user = Some(string_from_chars(value));
                                },
                                crate::host::SshSetting::Identityfile => {
                                    h.id_file = Some(string_from_chars(value));
                                },
                                crate::host::SshSetting::LocalForward => {
                                    h.local_forward = Some(string_from_chars(value));
                                },
                                crate::host::SshSetting::Port => {
                                    h.port = parse_u32_chars(value);
                                },
                            }
                            proof {
                                assert(h@ =~= apply_setting(h0, k, t@.skip(j + 1)));
                            }
                            cur = Some(h);
                            proof {
                                assert(line_step(st, gline, i as int) == Ok::<PState, PErr>(
                                    (PState { hosts: hosts_view(hosts@), cur: opt_host_view(cur) }),
                                ));
                            }
                        },
                        None => {
                            proof {
                                lemma_run_err_persists(gl, i + 1, gl.len() as int);
                            }
                            return Err(SshConfError::ParseError(i + 1, invalid_format_string()));
                        },
                    }
                },
                None => {
                    proof {
                        lemma_run_err_persists(gl, i + 1, gl.len() as int);
                    }
                    return Err(SshConfError::ParseError(i + 1, orphan_string()));
                },
            }
        }
        i += 1;
    }
    match cur {
        Some(h) => hosts.push(h),
        None => {},
    }
    proof {
        assert(hosts_view(hosts@) =~= close_open(
            run_upto(gl, gl.len() as int)->Ok_0,
        ));
    }
    Ok(hosts)
}

/// The trimmed view of a line: the slice without leading and trailing
/// whitespace.
fn trim_slice<'a>(v: &'a [char]) -> (r: &'a [char])
    ensures
        r@ == trim_spec(v@),
{
    let mut a: usize = 0;
    while a < v.len() && is_space(v[a])
        invariant
            0 <= a <= v@.len(),
            forall|k: int| 0 <= k < a ==> is_space_char(v@[k]),
        decreases v@.len() - a,
    {
        a += 1;
    }
    if a == v.len() {
        proof {
            lemma_trim_start_at(v@, a as int);
            assert(v@.skip(a as int) =~= Seq::<char>::empty());
        }
        vstd::slice::slice_subrange(v, 0, 0)
    } else {
        let mut b = v.len();
        while b > a + 1 && is_space(v[b - 1])
            invariant
                a < b <= v@.len(),
                forall|k: int| b <= k < v@.len() ==> is_space_char(v@[k]),
            decreases b,
        {
            b -= 1;
        }
        proof {
            lemma_trim_start_at(v@, a as int);
            let u = v@.skip(a as int);
            assert forall|i: int| (b - a) <= i < u.len() implies is_space_char(u[i]) by {
                assert(u[i] == v@[a + i]);
            }
            if b - a > 0 {
                assert(u[b - a - 1] == v@[b - 1]);
            }
            lemma_trim_end_at(u, b - a);
            assert(u.take(b - a) =~= v@.subrange(a as int, b as int));
        }
        vstd::slice::slice_subrange(v, a, b)
    }
}

} // verus!
