//! Serializing host records back into `Host`/setting-line form, and the
//! round-trip law: parsing a serialized list recovers the records.

use vstd::prelude::*;

use crate::chars::{
    dec_str, is_space_char, lower_seq, string_from_chars, u32_to_chars, chars_of,
    lemma_dec_str_digits, lemma_dec_str_round_trip,
};
use crate::host::{
    apply_setting, fresh_host, hosts_view, key_kind, opt_view, Host, HostV, SshSetting,
};
use crate::parser::{
    close_open, host_prefix, init_state, is_host_line, line_step, lines_of, run_upto,
    spec_parse, strip_cr, PErr, PState, lemma_trim_noop,
};

verus! {

/// A text fit to stand as a host identifier: non-empty, no whitespace.
pub open spec fn wf_token(s: Seq<char>) -> bool {
    s.len() > 0 && (forall|i: int| 0 <= i < s.len() ==> !is_space_char(s[i]))
}

/// A text fit to stand as a setting value: non-empty, free of newlines, and
/// not ending in whitespace.
pub open spec fn wf_value(s: Seq<char>) -> bool {
    &&& s.len() > 0
    &&& !is_space_char(s.last())
    &&& forall|i: int| 0 <= i < s.len() ==> s[i] != '\n'
}

pub open spec fn wf_opt_value(v: Option<Seq<char>>) -> bool {
    match v {
        Some(s) => wf_value(s),
        None => true,
    }
}

/// A record whose serialized form parses back: the identifier is a single
/// token and every present value is a well-formed setting value.
pub open spec fn serializable(h: HostV) -> bool {
    &&& wf_token(h.host_id)
    &&& wf_opt_value(h.host_name)
    &&& wf_opt_value(h.user)
    &&& wf_opt_value(h.proxy_jump)
    &&& wf_opt_value(h.local_forward)
    &&& wf_opt_value(h.id_file)
}

/// The record with its view-only expand flag cleared, as parsing yields it.
pub open spec fn collapse(h: HostV) -> HostV {
    HostV { expanded: false, ..h }
}

pub open spec fn hostname_label() -> Seq<char> {
    seq!['h', 'o', 's', 't', 'n', 'a', 'm', 'e']
}

pub open spec fn port_label() -> Seq<char> {
    seq!['p', 'o', 'r', 't']
}

pub open spec fn user_label() -> Seq<char> {
    seq!['u', 's', 'e', 'r']
}

pub open spec fn proxyjump_label() -> Seq<char> {
    seq!['p', 'r', 'o', 'x', 'y', 'j', 'u', 'm', 'p']
}

pub open spec fn localforward_label() -> Seq<char> {
    seq!['l', 'o', 'c', 'a', 'l', 'f', 'o', 'r', 'w', 'a', 'r', 'd']
}

pub open spec fn identityfile_label() -> Seq<char> {
    seq!['i', 'd', 'e', 'n', 't', 'i', 't', 'y', 'f', 'i', 'l', 'e']
}

pub open spec fn setting_line(label: Seq<char>, value: Seq<char>) -> Seq<char> {
    label + seq![' '] + value
}

pub open spec fn opt_lines(label: Seq<char>, v: Option<Seq<char>>) -> Seq<Seq<char>> {
    match v {
        Some(s) => seq![setting_line(label, s)],
        None => Seq::empty(),
    }
}

pub open spec fn port_value(p: Option<u32>) -> Option<Seq<char>> {
    match p {
        Some(n) => Some(dec_str(n as int)),
        None => None,
    }
}

/// The lines one record serializes to: the `Host` line, then one line per
/// present setting, in a fixed order.
pub open spec fn host_block_lines(h: HostV) -> Seq<Seq<char>> {
    seq![host_prefix() + h.host_id] + opt_lines(hostname_label(), h.host_name) + opt_lines(
        port_label(),
        port_value(h.port),
    ) + opt_lines(user_label(), h.user) + opt_lines(proxyjump_label(), h.proxy_jump) + opt_lines(
        localforward_label(),
        h.local_forward,
    ) + opt_lines(identityfile_label(), h.id_file)
}

pub open spec fn config_lines(hs: Seq<HostV>) -> Seq<Seq<char>>
    decreases hs.len(),
{
    if hs.len() == 0 {
        Seq::empty()
    } else {
        host_block_lines(hs.first()) + config_lines(hs.drop_first())
    }
}

/// Joins lines into a text, each line followed by a newline.
pub open spec fn join_lines(ls: Seq<Seq<char>>) -> Seq<char>
    decreases ls.len(),
{
    if ls.len() == 0 {
        Seq::empty()
    } else {
        ls.first() + seq!['\n'] + join_lines(ls.drop_first())
    }
}

/// The serialized text of an ordered record list.
pub open spec fn serialize_spec(hs: Seq<HostV>) -> Seq<char> {
    join_lines(config_lines(hs))
}

/// A line the joiner may emit: free of newlines and without a trailing
/// carriage return.
pub open spec fn wf_line(l: Seq<char>) -> bool {
    &&& forall|i: int| 0 <= i < l.len() ==> l[i] != '\n'
    &&& l.len() == 0 || l.last() != '\r'
}

proof fn lemma_lines_of_join(ls: Seq<Seq<char>>)
    requires
        forall|k: int| 0 <= k < ls.len() ==> wf_line(#[trigger] ls[k]),
    ensures
        lines_of(join_lines(ls)) == ls,
    decreases ls.len(),
{
    if ls.len() > 0 {
        let l0 = ls.first();
        let s = join_lines(ls);
        let rest = join_lines(ls.drop_first());
        assert(wf_line(l0));
        assert(s == l0 + seq!['\n'] + rest);
        assert forall|i: int| 0 <= i < l0.len() implies s[i] != '\n' by {
            assert(s[i] == l0[i]);
        }
        assert(s[l0.len() as int] == '\n');
        crate::parser::lemma_find_nl_at(s, l0.len() as int);
        assert(s.take(l0.len() as int) =~= l0);
        assert(strip_cr(l0) == l0);
        assert(s.skip(l0.len() as int + 1) =~= rest);
        assert forall|k: int| 0 <= k < ls.drop_first().len() implies wf_line(
            #[trigger] ls.drop_first()[k],
        ) by {
            assert(ls.drop_first()[k] == ls[k + 1]);
        }
        lemma_lines_of_join(ls.drop_first());
        assert(lines_of(s) =~= ls);
    }
}

/// What one line does to the state when it succeeds; successful steps do
/// not depend on the line's position.
pub open spec fn step_ok(st: PState, line: Seq<char>) -> Option<PState> {
    match line_step(st, line, 0) {
        Ok(s) => Some(s),
        Err(_) => None,
    }
}

proof fn lemma_step_idx(st: PState, line: Seq<char>, idx: int)
    requires
        step_ok(st, line) is Some,
    ensures
        line_step(st, line, idx) == Ok::<PState, PErr>(step_ok(st, line)->0),
{
}

pub open spec fn fold_ok(st: PState, ls: Seq<Seq<char>>) -> Option<PState>
    decreases ls.len(),
{
    if ls.len() == 0 {
        Some(st)
    } else {
        match step_ok(st, ls.first()) {
            Some(s) => fold_ok(s, ls.drop_first()),
            None => None,
        }
    }
}

proof fn lemma_fold_concat(st: PState, a: Seq<Seq<char>>, b: Seq<Seq<char>>)
    ensures
        fold_ok(st, a + b) == match fold_ok(st, a) {
            Some(s) => fold_ok(s, b),
            None => None,
        },
    decreases a.len(),
{
    if a.len() == 0 {
        assert(a + b =~= b);
    } else {
        assert((a + b).first() == a.first());
        assert((a + b).drop_first() =~= a.drop_first() + b);
        match step_ok(st, a.first()) {
            Some(s) => {
                lemma_fold_concat(s, a.drop_first(), b);
            },
            None => {},
        }
    }
}

proof fn lemma_run_of_fold(lines: Seq<Seq<char>>, i: int, j: int, st: PState)
    requires
        0 <= i <= j <= lines.len(),
        run_upto(lines, i) == Ok::<PState, PErr>(st),
        fold_ok(st, lines.subrange(i, j)) is Some,
    ensures
        run_upto(lines, j) == Ok::<PState, PErr>(fold_ok(st, lines.subrange(i, j))->0),
    decreases j - i,
{
    if j == i {
        assert(lines.subrange(i, j) =~= Seq::<Seq<char>>::empty());
    } else {
        let seg = lines.subrange(i, j);
        assert(seg.first() == lines[i]);
        assert(seg.drop_first() =~= lines.subrange(i + 1, j));
        let s1 = step_ok(st, lines[i])->0;
        lemma_step_idx(st, lines[i], i);
        assert(run_upto(lines, i + 1) == Ok::<PState, PErr>(s1));
        lemma_run_of_fold(lines, i + 1, j, s1);
    }
}

proof fn lemma_wf_value_dec_str(n: u32)
    ensures
        wf_value(dec_str(n as int)),
{
    lemma_dec_str_digits(n as int);
    let d = dec_str(n as int);
    assert(crate::chars::is_digit_char(d.last()));
    assert(!is_space_char(d.last()));
    assert forall|i: int| 0 <= i < d.len() implies d[i] != '\n' by {
        assert(crate::chars::is_digit_char(d[i]));
    }
}

proof fn lemma_lower_noop(s: Seq<char>)
    requires
        forall|i: int| 0 <= i < s.len() ==> !('A' <= s[i] && s[i] <= 'Z'),
    ensures
        lower_seq(s) == s,
{
    assert(lower_seq(s) =~= s);
}

proof fn lemma_step_host_line(st: PState, id: Seq<char>)
    requires
        wf_token(id),
    ensures
        step_ok(st, host_prefix() + id) == Some(
            (PState { hosts: close_open(st), cur: Some(fresh_host(id)) }),
        ),
{
    let line = host_prefix() + id;
    assert(line[0] == 'H');
    assert(line.last() == id.last());
    assert(!is_space_char(id.last()));
    lemma_trim_noop(line);
    assert(line.subrange(0, 5) =~= host_prefix());
    assert(is_host_line(line));
    assert(line.skip(5) =~= id);
    crate::parser::lemma_trim_start_at(id, 0);
    assert(id.skip(0) =~= id);
    crate::parser::lemma_find_space_at(id, id.len() as int);
    assert(crate::parser::first_token(id) =~= id);
    assert(line_step(st, line, 0) == Ok::<PState, PErr>(
        (PState { hosts: close_open(st), cur: Some(fresh_host(id)) }),
    ));
}

proof fn lemma_step_setting(st: PState, label: Seq<char>, kind: SshSetting, value: Seq<char>)
    requires
        st.cur is Some,
        wf_value(value),
        wf_token(label),
        label[0] != '#',
        label[0] != 'H',
        key_kind(lower_seq(label)) == Some(kind),
    ensures
        step_ok(st, setting_line(label, value)) == Some(
            (PState { hosts: st.hosts, cur: Some(apply_setting(st.cur->0, kind, value)) }),
        ),
{
    let line = setting_line(label, value);
    assert(line[0] == label[0]);
    assert(line.last() == value.last());
    lemma_trim_noop(line);
    if is_host_line(line) {
        assert(line.subrange(0, 5)[0] == line[0]);
        assert(false);
    }
    assert forall|i: int| 0 <= i < label.len() implies !is_space_char(line[i]) by {
        assert(line[i] == label[i]);
    }
    assert(line[label.len() as int] == ' ');
    crate::parser::lemma_find_space_at(line, label.len() as int);
    assert(line.take(label.len() as int) =~= label);
    assert(line.skip(label.len() as int + 1) =~= value);
    assert(line_step(st, line, 0) == Ok::<PState, PErr>(
        (PState { hosts: st.hosts, cur: Some(apply_setting(st.cur->0, kind, value)) }),
    ));
}

/// The record once the optional setting is applied, or unchanged.
pub open spec fn apply_opt(h: HostV, kind: SshSetting, v: Option<Seq<char>>) -> HostV {
    match v {
        Some(x) => apply_setting(h, kind, x),
        None => h,
    }
}

proof fn lemma_fold_opt(st: PState, label: Seq<char>, kind: SshSetting, v: Option<Seq<char>>)
    requires
        st.cur is Some,
        wf_opt_value(v),
        wf_token(label),
        label[0] != '#',
        label[0] != 'H',
        key_kind(lower_seq(label)) == Some(kind),
    ensures
        fold_ok(st, opt_lines(label, v)) == Some(
            (PState { hosts: st.hosts, cur: Some(apply_opt(st.cur->0, kind, v)) }),
        ),
{
    match v {
        None => {
            assert(opt_lines(label, v) =~= Seq::<Seq<char>>::empty());
            assert(fold_ok(st, opt_lines(label, v)) == Some(st));
            assert((PState { hosts: st.hosts, cur: Some(apply_opt(st.cur->0, kind, v)) }) =~= st);
            assert(fold_ok(st, opt_lines(label, v)) == Some(
                (PState { hosts: st.hosts, cur: Some(apply_opt(st.cur->0, kind, v)) }),
            ));
        },
        Some(x) => {
            lemma_step_setting(st, label, kind, x);
            let ls = opt_lines(label, v);
            let st2 = PState { hosts: st.hosts, cur: Some(apply_setting(st.cur->0, kind, x)) };
            assert(ls.first() == setting_line(label, x));
            assert(ls.drop_first() =~= Seq::<Seq<char>>::empty());
            assert(step_ok(st, ls.first()) == Some(st2));
            assert(fold_ok(st2, ls.drop_first()) == Some(st2));
            assert(fold_ok(st, ls) == Some(st2));
        },
    }
}

proof fn lemma_label_facts()
    ensures
        wf_token(hostname_label()) && hostname_label()[0] != '#' && hostname_label()[0] != 'H'
            && key_kind(lower_seq(hostname_label())) == Some(SshSetting::HostName),
        wf_token(port_label()) && port_label()[0] != '#' && port_label()[0] != 'H' && key_kind(
            lower_seq(port_label()),
        ) == Some(SshSetting::Port),
        wf_token(user_label()) && user_label()[0] != '#' && user_label()[0] != 'H' && key_kind(
            lower_seq(user_label()),
        ) == Some(SshSetting::User),
        wf_token(proxyjump_label()) && proxyjump_label()[0] != '#' && proxyjump_label()[0] != 'H'
            && key_kind(lower_seq(proxyjump_label())) == Some(SshSetting::ProxyJump),
        wf_token(localforward_label()) && localforward_label()[0] != '#'
            && localforward_label()[0] != 'H' && key_kind(lower_seq(localforward_label())) == Some(
            SshSetting::LocalForward,
        ),
        wf_token(identityfile_label()) && identityfile_label()[0] != '#'
            && identityfile_label()[0] != 'H' && key_kind(lower_seq(identityfile_label())) == Some(
            SshSetting::Identityfile,
        ),
{
    lemma_lower_noop(hostname_label());
    lemma_lower_noop(port_label());
    lemma_lower_noop(user_label());
    lemma_lower_noop(proxyjump_label());
    lemma_lower_noop(localforward_label());
    lemma_lower_noop(identityfile_label());
}

#[verifier::rlimit(100)]
proof fn lemma_fold_block(st: PState, h: HostV)
    requires
        serializable(h),
    ensures
        fold_ok(st, host_block_lines(h)) == Some(
            (PState { hosts: close_open(st), cur: Some(collapse(h)) }),
        ),
{
    lemma_label_facts();
    let l0: Seq<Seq<char>> = seq![host_prefix() + h.host_id];
    let a1 = opt_lines(hostname_label(), h.host_name);
    let a2 = opt_lines(port_label(), port_value(h.port));
    let a3 = opt_lines(user_label(), h.user);
    let a4 = opt_lines(proxyjump_label(), h.proxy_jump);
    let a5 = opt_lines(localforward_label(), h.local_forward);
    let a6 = opt_lines(identityfile_label(), h.id_file);

    lemma_step_host_line(st, h.host_id);
    let st1 = PState { hosts: close_open(st), cur: Some(fresh_host(h.host_id)) };
    assert(l0.first() == host_prefix() + h.host_id);
    assert(l0.drop_first() =~= Seq::<Seq<char>>::empty());
    assert(step_ok(st, l0.first()) == Some(st1));
    assert(fold_ok(st1, l0.drop_first()) == Some(st1));
    assert(fold_ok(st, l0) == Some(st1));

    if h.port is Some {
        lemma_wf_value_dec_str(h.port->0);
    }

    lemma_fold_opt(st1, hostname_label(), SshSetting::HostName, h.host_name);
    let h1 = apply_opt(st1.cur->0, SshSetting::HostName, h.host_name);
    let st2 = PState { hosts: st1.hosts, cur: Some(h1) };
    lemma_fold_opt(st2, port_label(), SshSetting::Port, port_value(h.port));
    let h2 = apply_opt(h1, SshSetting::Port, port_value(h.port));
    let st3 = PState { hosts: st1.hosts, cur: Some(h2) };
    lemma_fold_opt(st3, user_label(), SshSetting::User, h.user);
    let h3 = apply_opt(h2, SshSetting::User, h.user);
    let st4 = PState { hosts: st1.hosts, cur: Some(h3) };
    lemma_fold_opt(st4, proxyjump_label(), SshSetting::ProxyJump, h.proxy_jump);
    let h4 = apply_opt(h3, SshSetting::ProxyJump, h.proxy_jump);
    let st5 = PState { hosts: st1.hosts, cur: Some(h4) };
    lemma_fold_opt(st5, localforward_label(), SshSetting::LocalForward, h.local_forward);
    let h5 = apply_opt(h4, SshSetting::LocalForward, h.local_forward);
    let st6 = PState { hosts: st1.hosts, cur: Some(h5) };
    lemma_fold_opt(st6, identityfile_label(), SshSetting::Identityfile, h.id_file);
    let h6 = apply_opt(h5, SshSetting::Identityfile, h.id_file);
    let st7 = PState { hosts: st1.hosts, cur: Some(h6) };

    if h.port is Some {
        lemma_dec_str_round_trip(h.port->0);
    }
    assert(h6 =~= collapse(h));

    lemma_fold_concat(st6, a6, Seq::empty());
    assert(a6 + Seq::<Seq<char>>::empty() =~= a6);
    lemma_fold_concat(st5, a5, a6);
    lemma_fold_concat(st4, a4, a5 + a6);
    lemma_fold_concat(st3, a3, a4 + (a5 + a6));
    lemma_fold_concat(st2, a2, a3 + (a4 + (a5 + a6)));
    lemma_fold_concat(st1, a1, a2 + (a3 + (a4 + (a5 + a6))));
    lemma_fold_concat(st, l0, a1 + (a2 + (a3 + (a4 + (a5 + a6)))));
    assert(host_block_lines(h) =~= l0 + (a1 + (a2 + (a3 + (a4 + (a5 + a6))))));
    assert(fold_ok(st, host_block_lines(h)) == Some(st7));
}

/// Every record collapsed: the parse image of a serialized list.
pub open spec fn collapse_all(hs: Seq<HostV>) -> Seq<HostV> {
    hs.map_values(|h: HostV| collapse(h))
}

proof fn lemma_fold_blocks(st: PState, hs: Seq<HostV>)
    requires
        forall|i: int| 0 <= i < hs.len() ==> serializable(#[trigger] hs[i]),
        hs.len() > 0,
    ensures
        fold_ok(st, config_lines(hs)) == Some(
            (PState {
                hosts: close_open(st) + collapse_all(hs.drop_last()),
                cur: Some(collapse(hs.last())),
            }),
        ),
    decreases hs.len(),
{
    let h0 = hs.first();
    let rest = hs.drop_first();
    assert(serializable(h0));
    lemma_fold_block(st, h0);
    let st1 = PState { hosts: close_open(st), cur: Some(collapse(h0)) };
    lemma_fold_concat(st, host_block_lines(h0), config_lines(rest));
    if rest.len() == 0 {
        assert(config_lines(rest) =~= Seq::<Seq<char>>::empty());
        assert(hs.drop_last() =~= Seq::<HostV>::empty());
        assert(close_open(st) + collapse_all(hs.drop_last()) =~= close_open(st));
        assert(hs.last() == h0);
    } else {
        assert forall|i: int| 0 <= i < rest.len() implies serializable(#[trigger] rest[i]) by {
            assert(rest[i] == hs[i + 1]);
        }
        lemma_fold_blocks(st1, rest);
        assert(close_open(st1) == close_open(st).push(collapse(h0)));
        assert(close_open(st).push(collapse(h0)) + collapse_all(rest.drop_last()) =~= close_open(
            st,
        ) + collapse_all(hs.drop_last()));
        assert(hs.last() == rest.last());
    }
}

proof fn lemma_block_lines_wf(h: HostV)
    requires
        serializable(h),
    ensures
        forall|k: int| 0 <= k < host_block_lines(h).len() ==> wf_line(
            #[trigger] host_block_lines(h)[k],
        ),
{
    lemma_label_facts();
    let ls = host_block_lines(h);
    let hostline = host_prefix() + h.host_id;
    assert forall|i: int| 0 <= i < hostline.len() implies hostline[i] != '\n' by {
        if i < 5 {
        } else {
            assert(hostline[i] == h.host_id[i - 5]);
            assert(!is_space_char(h.host_id[i - 5]));
        }
    }
    assert(hostline.last() == h.host_id.last());
    assert(wf_line(hostline));
    if h.port is Some {
        lemma_wf_value_dec_str(h.port->0);
    }
    assert forall|k: int| 0 <= k < ls.len() implies wf_line(#[trigger] ls[k]) by {
        if k > 0 {
            lemma_setting_line_wf_any(h, k);
        }
    }
}

proof fn lemma_setting_line_wf(label: Seq<char>, value: Seq<char>)
    requires
        wf_token(label),
        wf_value(value),
    ensures
        wf_line(setting_line(label, value)),
{
    let line = setting_line(label, value);
    assert forall|i: int| 0 <= i < line.len() implies line[i] != '\n' by {
        if i < label.len() {
            assert(line[i] == label[i]);
            assert(!is_space_char(label[i]));
        } else if i == label.len() {
            assert(line[i] == ' ');
        } else {
            assert(line[i] == value[i - label.len() - 1]);
        }
    }
    assert(line.last() == value.last());
}

proof fn lemma_setting_line_wf_any(h: HostV, k: int)
    requires
        serializable(h),
        0 < k < host_block_lines(h).len(),
    ensures
        wf_line(host_block_lines(h)[k]),
{
    lemma_label_facts();
    if h.port is Some {
        lemma_wf_value_dec_str(h.port->0);
    }
    let ls = host_block_lines(h);
    match h.host_name {
        Some(v) => lemma_setting_line_wf(hostname_label(), v),
        None => {},
    }
    match port_value(h.port) {
        Some(v) => lemma_setting_line_wf(port_label(), v),
        None => {},
    }
    match h.user {
        Some(v) => lemma_setting_line_wf(user_label(), v),
        None => {},
    }
    match h.proxy_jump {
        Some(v) => lemma_setting_line_wf(proxyjump_label(), v),
        None => {},
    }
    match h.local_forward {
        Some(v) => lemma_setting_line_wf(localforward_label(), v),
        None => {},
    }
    match h.id_file {
        Some(v) => lemma_setting_line_wf(identityfile_label(), v),
        None => {},
    }
}

proof fn lemma_config_lines_wf(hs: Seq<HostV>)
    requires
        forall|i: int| 0 <= i < hs.len() ==> serializable(#[trigger] hs[i]),
    ensures
        forall|k: int| 0 <= k < config_lines(hs).len() ==> wf_line(#[trigger] config_lines(hs)[k]),
    decreases hs.len(),
{
    if hs.len() > 0 {
        let h0 = hs.first();
        let rest = hs.drop_first();
        lemma_block_lines_wf(h0);
        assert forall|i: int| 0 <= i < rest.len() implies serializable(#[trigger] rest[i]) by {
            assert(rest[i] == hs[i + 1]);
        }
        lemma_config_lines_wf(rest);
        let b = host_block_lines(h0);
        assert forall|k: int| 0 <= k < config_lines(hs).len() implies wf_line(
            #[trigger] config_lines(hs)[k],
        ) by {
            if k < b.len() {
                assert(config_lines(hs)[k] == b[k]);
            } else {
                assert(config_lines(hs)[k] == config_lines(rest)[k - b.len()]);
            }
        }
    }
}

/// Round trip: parsing the serialized form of any list of serializable
/// records yields exactly those records, in order, with the view-only
/// expand flag cleared.
pub proof fn lemma_round_trip(hs: Seq<HostV>)
    requires
        forall|i: int| 0 <= i < hs.len() ==> serializable(#[trigger] hs[i]),
    ensures
        spec_parse(serialize_spec(hs)) == Ok::<Seq<HostV>, PErr>(collapse_all(hs)),
{
    let lines = config_lines(hs);
    lemma_config_lines_wf(hs);
    lemma_lines_of_join(lines);
    assert(lines_of(serialize_spec(hs)) == lines);
    if hs.len() == 0 {
        assert(lines =~= Seq::<Seq<char>>::empty());
        assert(run_upto(lines, 0) == Ok::<PState, PErr>(init_state()));
        assert(close_open(init_state()) =~= collapse_all(hs));
    } else {
        lemma_fold_blocks(init_state(), hs);
        let end = PState {
            hosts: close_open(init_state()) + collapse_all(hs.drop_last()),
            cur: Some(collapse(hs.last())),
        };
        assert(lines.subrange(0, lines.len() as int) =~= lines);
        lemma_run_of_fold(lines, 0, lines.len() as int, init_state());
        assert(run_upto(lines, lines.len() as int) == Ok::<PState, PErr>(end));
        assert(close_open(end) =~= collapse_all(hs));
    }
}

proof fn lemma_join_concat(a: Seq<Seq<char>>, b: Seq<Seq<char>>)
    ensures
        join_lines(a + b) == join_lines(a) + join_lines(b),
    decreases a.len(),
{
    if a.len() == 0 {
        assert(a + b =~= b);
        assert(join_lines(a) + join_lines(b) =~= join_lines(b));
    } else {
        assert((a + b).first() == a.first());
        assert((a + b).drop_first() =~= a.drop_first() + b);
        lemma_join_concat(a.drop_first(), b);
        assert(join_lines(a + b) =~= join_lines(a) + join_lines(b));
    }
}

proof fn lemma_config_lines_push(hs: Seq<HostV>, h: HostV)
    ensures
        config_lines(hs.push(h)) == config_lines(hs) + host_block_lines(h),
    decreases hs.len(),
{
    if hs.len() == 0 {
        assert(hs.push(h).first() == h);
        assert(hs.push(h).drop_first() =~= Seq::<HostV>::empty());
        assert(config_lines(hs.push(h).drop_first()) =~= Seq::<Seq<char>>::empty());
        assert(config_lines(hs.push(h)) =~= config_lines(hs) + host_block_lines(h));
    } else {
        assert(hs.push(h).first() == hs.first());
        assert(hs.push(h).drop_first() =~= hs.drop_first().push(h));
        lemma_config_lines_push(hs.drop_first(), h);
        assert(config_lines(hs.push(h)) == host_block_lines(hs.first()) + config_lines(
            hs.push(h).drop_first(),
        ));
        assert(config_lines(hs.push(h)) =~= config_lines(hs) + host_block_lines(h));
    }
}

fn hostname_label_vec() -> (r: Vec<char>)
    ensures
        r@ == hostname_label(),
{
    let v = chars_of("hostname");
    proof {
        reveal_strlit("hostname");
        assert(v@ =~= hostname_label());
    }
    v
}

fn port_label_vec() -> (r: Vec<char>)
    ensures
        r@ == port_label(),
{
    let v = chars_of("port");
    proof {
        reveal_strlit("port");
        assert(v@ =~= port_label());
    }
    v
}

fn user_label_vec() -> (r: Vec<char>)
    ensures
        r@ == user_label(),
{
    let v = chars_of("user");
    proof {
        reveal_strlit("user");
        assert(v@ =~= user_label());
    }
    v
}

fn proxyjump_label_vec() -> (r: Vec<char>)
    ensures
        r@ == proxyjump_label(),
{
    let v = chars_of("proxyjump");
    proof {
        reveal_strlit("proxyjump");
        assert(v@ =~= proxyjump_label());
    }
    v
}

fn localforward_label_vec() -> (r: Vec<char>)
    ensures
        r@ == localforward_label(),
{
    let v = chars_of("localforward");
    proof {
        reveal_strlit("localforward");
        assert(v@ =~= localforward_label());
    }
    v
}

fn identityfile_label_vec() -> (r: Vec<char>)
    ensures
        r@ == identityfile_label(),
{
    let v = chars_of("identityfile");
    proof {
        reveal_strlit("identityfile");
        assert(v@ =~= identityfile_label());
    }
    v
}

fn push_opt_line(out: &mut Vec<char>, label: &Vec<char>, val: &Option<String>)
    ensures
        final(out)@ == old(out)@ + join_lines(opt_lines(label@, opt_view(*val))),
{
    match val {
        Some(s) => {
            out.extend_from_slice(label.as_slice());
            out.push(' ');
            let vc = chars_of(s.as_str());
            out.extend_from_slice(vc.as_slice());
            out.push('\n');
            proof {
                let ghost l = setting_line(label@, s@);
                assert(opt_lines(label@, opt_view(*val)) =~= seq![l]);
                assert(seq![l].drop_first() =~= Seq::<Seq<char>>::empty());
                assert(join_lines(seq![l].drop_first()) =~= Seq::<char>::empty());
                assert(join_lines(seq![l]) =~= l + seq!['\n']);
                assert(out@ =~= old(out)@ + join_lines(opt_lines(label@, opt_view(*val))));
            }
        },
        None => {
            proof {
                assert(out@ =~= old(out)@ + join_lines(opt_lines(label@, opt_view(*val))));
            }
        },
    }
}

#[verifier::rlimit(100)]
fn push_host_text(out: &mut Vec<char>, h: &Host)
    ensures
        final(out)@ == old(out)@ + join_lines(host_block_lines(h@)),
{
    out.push('H');
    out.push('o');
    out.push('s');
    out.push('t');
    out.push(' ');
    let idc = chars_of(h.host_id.as_str());
    out.extend_from_slice(idc.as_slice());
    out.push('\n');
    let ghost after_host = out@;
    proof {
        assert(after_host =~= old(out)@ + (host_prefix() + h@.host_id + seq!['\n']));
    }
    let hostname_l = hostname_label_vec();
    let port_l = port_label_vec();
    let user_l = user_label_vec();
    let proxyjump_l = proxyjump_label_vec();
    let localforward_l = localforward_label_vec();
    let identityfile_l = identityfile_label_vec();

    push_opt_line(out, &hostname_l, &h.host_name);
    let ports: Option<String> = match h.port {
        Some(n) => {
            let d = u32_to_chars(n);
            Some(string_from_chars(d.as_slice()))
        },
        None => None,
    };
    proof {
        assert(opt_view(ports) == port_value(h@.port));
    }
    push_opt_line(out, &port_l, &ports);
    push_opt_line(out, &user_l, &h.user);
    push_opt_line(out, &proxyjump_l, &h.proxy_jump);
    push_opt_line(out, &localforward_l, &h.local_forward);
    push_opt_line(out, &identityfile_l, &h.id_file);
    proof {
        let l0: Seq<Seq<char>> = seq![host_prefix() + h@.host_id];
        let a1 = opt_lines(hostname_label(), h@.host_name);
        let a2 = opt_lines(port_label(), port_value(h@.port));
        let a3 = opt_lines(user_label(), h@.user);
        let a4 = opt_lines(proxyjump_label(), h@.proxy_jump);
        let a5 = opt_lines(localforward_label(), h@.local_forward);
        let a6 = opt_lines(identityfile_label(), h@.id_file);
        lemma_join_concat(l0, a1);
        lemma_join_concat(l0 + a1, a2);
        lemma_join_concat(l0 + a1 + a2, a3);
        lemma_join_concat(l0 + a1 + a2 + a3, a4);
        lemma_join_concat(l0 + a1 + a2 + a3 + a4, a5);
        lemma_join_concat(l0 + a1 + a2 + a3 + a4 + a5, a6);
        assert(l0.drop_first() =~= Seq::<Seq<char>>::empty());
        assert(join_lines(l0.drop_first()) =~= Seq::<char>::empty());
        assert(join_lines(l0) =~= host_prefix() + h@.host_id + seq!['\n']);
        assert(host_block_lines(h@) == l0 + a1 + a2 + a3 + a4 + a5 + a6);
        assert(out@ =~= old(out)@ + join_lines(host_block_lines(h@)));
    }
}

/// Serializes an ordered record list back into `Host`/setting-line text,
/// one line per present setting, in the fixed field order.
pub fn to_config_text(hosts: &Vec<Host>) -> (r: String)
    ensures
        r@ == serialize_spec(hosts_view(hosts@)),
{
    let mut out: Vec<char> = Vec::new();
    let mut i: usize = 0;
    proof {
        assert(hosts_view(hosts@.take(0)) =~= Seq::<HostV>::empty());
        assert(config_lines(hosts_view(hosts@.take(0))) =~= Seq::<Seq<char>>::empty());
        assert(out@ =~= serialize_spec(hosts_view(hosts@.take(0))));
    }
    while i < hosts.len()
        invariant
            0 <= i <= hosts@.len(),
            out@ == serialize_spec(hosts_view(hosts@.take(i as int))),
        decreases hosts@.len() - i,
    {
        push_host_text(&mut out, &hosts[i]);
        proof {
            let prev = hosts_view(hosts@.take(i as int));
            let hv = hosts@[i as int]@;
            assert(hosts_view(hosts@.take(i + 1)) =~= prev.push(hv));
            lemma_config_lines_push(prev, hv);
            lemma_join_concat(config_lines(prev), host_block_lines(hv));
            assert(out@ =~= serialize_spec(hosts_view(hosts@.take(i + 1))));
        }
        i += 1;
    }
    proof {
        assert(hosts@.take(hosts@.len() as int) =~= hosts@);
    }
    string_from_chars(out.as_slice())
}

} // verus!
