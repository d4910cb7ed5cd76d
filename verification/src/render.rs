//! Plain-text renderings of records: the full text dump (absent fields
//! shown as `none`), the one-line summary of a collapsed row, and the
//! attribute lines of an expanded row. Styling stays outside the library.

use vstd::prelude::*;

use crate::chars::{string_from_chars, u32_to_chars, chars_of};
use crate::host::{opt_view, Host, HostV, hosts_view};
use crate::model::SshConf;
use crate::serial::{
    hostname_label, identityfile_label, localforward_label, port_label, port_value,
    proxyjump_label, user_label,
};

verus! {

pub open spec fn none_word() -> Seq<char> {
    seq!['n', 'o', 'n', 'e']
}

pub open spec fn indent4() -> Seq<char> {
    seq![' ', ' ', ' ', ' ']
}

/// One dump line: four spaces, the label, a space, then the value or the
/// word `none`.
pub open spec fn dump_field(label: Seq<char>, v: Option<Seq<char>>) -> Seq<char> {
    indent4() + label + seq![' '] + (match v {
        Some(x) => x,
        None => none_word(),
    }) + seq!['\n']
}

/// The text dump of one record: a `host` line, then every attribute in a
/// fixed order, absent ones shown as `none`.
pub open spec fn host_dump(h: HostV) -> Seq<char> {
    seq!['h', 'o', 's', 't', ' '] + h.host_id + seq!['\n'] + dump_field(
        hostname_label(),
        h.host_name,
    ) + dump_field(port_label(), port_value(h.port)) + dump_field(user_label(), h.user)
        + dump_field(proxyjump_label(), h.proxy_jump) + dump_field(
        localforward_label(),
        h.local_forward,
    ) + dump_field(identityfile_label(), h.id_file)
}

/// The text dump of a whole collection: each record's dump followed by a
/// blank line.
pub open spec fn conf_dump(hs: Seq<HostV>) -> Seq<char>
    decreases hs.len(),
{
    if hs.len() == 0 {
        Seq::empty()
    } else {
        host_dump(hs.first()) + seq!['\n'] + conf_dump(hs.drop_first())
    }
}

fn push_dump_field(out: &mut Vec<char>, label: &Vec<char>, v: &Option<String>)
    ensures
        final(out)@ == old(out)@ + dump_field(label@, opt_view(*v)),
{
    out.push(' ');
    out.push(' ');
    out.push(' ');
    out.push(' ');
    out.extend_from_slice(label.as_slice());
    out.push(' ');
    match v {
        Some(s) => {
            let vc = chars_of(s.as_str());
            out.extend_from_slice(vc.as_slice());
        },
        None => {
            out.push('n');
            out.push('o');
            out.push('n');
            out.push('e');
        },
    }
    out.push('\n');
    proof {
        assert(out@ =~= old(out)@ + dump_field(label@, opt_view(*v)));
    }
}

fn label_vec(s: &str) -> (r: Vec<char>)
    ensures
        r@ == s@,
{
    chars_of(s)
}

#[verifier::rlimit(100)]
fn push_host_dump(out: &mut Vec<char>, h: &Host)
    ensures
        final(out)@ == old(out)@ + host_dump(h@),
{
    out.push('h');
    out.push('o');
    out.push('s');
    out.push('t');
    out.push(' ');
    let idc = chars_of(h.host_id.as_str());
    out.extend_from_slice(idc.as_slice());
    out.push('\n');
    let hostname_l = label_vec("hostname");
    let port_l = label_vec("port");
    let user_l = label_vec("user");
    let proxyjump_l = label_vec("proxyjump");
    let localforward_l = label_vec("localforward");
    let identityfile_l = label_vec("identityfile");
    proof {
        reveal_strlit("hostname");
        reveal_strlit("port");
        reveal_strlit("user");
        reveal_strlit("proxyjump");
        reveal_strlit("localforward");
        reveal_strlit("identityfile");
        assert(hostname_l@ =~= hostname_label());
        assert(port_l@ =~= port_label());
        assert(user_l@ =~= user_label());
        assert(proxyjump_l@ =~= proxyjump_label());
        assert(localforward_l@ =~= localforward_label());
        assert(identityfile_l@ =~= identityfile_label());
    }
    push_dump_field(out, &hostname_l, &h.host_name);
    let ports: Option<String> = match h.port {
        Some(n) => {
            let d = u32_to_chars(n);
            Some(string_from_chars(d.as_slice()))
        },
        None => None,
    };
    proof {
        assert(opt_view(ports) == port_value(h@.port));
    }
    push_dump_field(out, &port_l, &ports);
    push_dump_field(out, &user_l, &h.user);
    push_dump_field(out, &proxyjump_l, &h.proxy_jump);
    push_dump_field(out, &localforward_l, &h.local_forward);
    push_dump_field(out, &identityfile_l, &h.id_file);
    proof {
        assert(out@ =~= old(out)@ + host_dump(h@));
    }
}

impl Host {
    /// The record's text dump, absent fields shown as `none`.
    pub fn to_text(&self) -> (r: String)
        ensures
            r@ == host_dump(self@),
    {
        let mut out: Vec<char> = Vec::new();
        push_host_dump(&mut out, self);
        proof {
            assert(out@ =~= host_dump(self@));
        }
        string_from_chars(out.as_slice())
    }
}

impl SshConf {
    /// The whole collection's text dump: one record dump per host, each
    /// followed by a blank line.
    pub fn to_text(&self) -> (r: String)
        ensures
            r@ == conf_dump(self@.hosts),
    {
        let mut out: Vec<char> = Vec::new();
        let mut i: usize = 0;
        proof {
            assert(hosts_view(self.confs@.take(0)) =~= Seq::<HostV>::empty());
            assert(out@ =~= conf_dump(hosts_view(self.confs@.take(0))));
        }
        while i < self.confs.len()
            invariant
                0 <= i <= self.confs@.len(),
                out@ == conf_dump(hosts_view(self.confs@.take(i as int))),
            decreases self.confs@.len() - i,
        {
            push_host_dump(&mut out, &self.confs[i]);
            out.push('\n');
            proof {
                let prev = hosts_view(self.confs@.take(i as int));
                let hv = self.confs@[i as int]@;
                assert(hosts_view(self.confs@.take(i + 1)) =~= prev.push(hv));
                lemma_conf_dump_push(prev, hv);
                assert(out@ =~= conf_dump(hosts_view(self.confs@.take(i + 1))));
            }
            i += 1;
        }
        proof {
            assert(self.confs@.take(self.confs@.len() as int) =~= self.confs@);
        }
        string_from_chars(out.as_slice())
    }
}

proof fn lemma_conf_dump_push(hs: Seq<HostV>, h: HostV)
    ensures
        conf_dump(hs.push(h)) == conf_dump(hs) + host_dump(h) + seq!['\n'],
    decreases hs.len(),
{
    if hs.len() == 0 {
        assert(hs.push(h).first() == h);
        assert(hs.push(h).drop_first() =~= Seq::<HostV>::empty());
        assert(conf_dump(hs.push(h).drop_first()) =~= Seq::<char>::empty());
        assert(conf_dump(hs.push(h)) =~= conf_dump(hs) + host_dump(h) + seq!['\n']);
    } else {
        assert(hs.push(h).first() == hs.first());
        assert(hs.push(h).drop_first() =~= hs.drop_first().push(h));
        lemma_conf_dump_push(hs.drop_first(), h);
        assert(conf_dump(hs.push(h)) == host_dump(hs.first()) + seq!['\n'] + conf_dump(
            hs.push(h).drop_first(),
        ));
        assert(conf_dump(hs.push(h)) =~= conf_dump(hs) + host_dump(h) + seq!['\n']);
    }
}

/// The marker put before the host name in a summary row.
pub open spec fn name_marker() -> Seq<char> {
    "\u{1f5a5}\u{fe0f} "@
}

/// The marker put before the user in a summary row.
pub open spec fn user_marker() -> Seq<char> {
    "\u{1f464} "@
}

/// The marker put before the port in a summary row.
pub open spec fn port_marker() -> Seq<char> {
    "\u{1f6aa} "@
}

/// The marker put before the jump host in a summary row.
pub open spec fn proxy_marker() -> Seq<char> {
    "\u{2197}\u{fe0f}\u{2197}\u{fe0f}"@
}

pub open spec fn opt_part(marker: Seq<char>, v: Option<Seq<char>>) -> Seq<Seq<char>> {
    match v {
        Some(x) => seq![marker + x],
        None => Seq::empty(),
    }
}

/// The texts of a list of character vectors.
pub open spec fn vecs_view(s: Seq<Vec<char>>) -> Seq<Seq<char>> {
    s.map_values(|p: Vec<char>| p@)
}

/// The texts of a list of strings.
pub open spec fn strings_view(s: Seq<String>) -> Seq<Seq<char>> {
    s.map_values(|t: String| t@)
}

/// The present summary parts, in the fixed order: host name, user, port,
/// jump host.
pub open spec fn summary_parts(h: HostV) -> Seq<Seq<char>> {
    opt_part(name_marker(), h.host_name) + opt_part(user_marker(), h.user) + opt_part(
        port_marker(),
        port_value(h.port),
    ) + opt_part(proxy_marker(), h.proxy_jump)
}

/// Joins parts with two spaces between them.
pub open spec fn join_two_spaces(parts: Seq<Seq<char>>) -> Seq<char>
    decreases parts.len(),
{
    if parts.len() == 0 {
        Seq::empty()
    } else if parts.len() == 1 {
        parts.first()
    } else {
        parts.first() + seq![' ', ' '] + join_two_spaces(parts.drop_first())
    }
}

/// The one-line summary of a collapsed row, without the identifier.
pub open spec fn summary_details_spec(h: HostV) -> Seq<char> {
    join_two_spaces(summary_parts(h))
}

proof fn lemma_join_two_push(parts: Seq<Seq<char>>, x: Seq<char>)
    ensures
        parts.len() == 0 ==> join_two_spaces(parts.push(x)) == x,
        parts.len() > 0 ==> join_two_spaces(parts.push(x)) == join_two_spaces(parts) + seq![
            ' ',
            ' ',
        ] + x,
    decreases parts.len(),
{
    if parts.len() == 0 {
        assert(parts.push(x).first() == x);
        assert(join_two_spaces(parts.push(x)) == x);
    } else {
        assert(parts.push(x).first() == parts.first());
        assert(parts.push(x).drop_first() =~= parts.drop_first().push(x));
        lemma_join_two_push(parts.drop_first(), x);
        if parts.len() == 1 {
            assert(join_two_spaces(parts.push(x)) =~= join_two_spaces(parts) + seq![' ', ' ']
                + x);
        } else {
            assert(join_two_spaces(parts.push(x)) =~= join_two_spaces(parts) + seq![' ', ' ']
                + x);
        }
    }
}

fn push_part(parts: &mut Vec<Vec<char>>, marker: &str, v: &Option<String>)
    ensures
        vecs_view(final(parts)@) == vecs_view(old(parts)@) + opt_part(marker@, opt_view(*v)),
{
    match v {
        Some(s) => {
            let mut part = chars_of(marker);
            let vc = chars_of(s.as_str());
            part.extend_from_slice(vc.as_slice());
            let ghost partv = part@;
            parts.push(part);
            proof {
                assert(partv == marker@ + s@);
                assert(opt_part(marker@, opt_view(*v)) =~= seq![partv]);
                assert(vecs_view(parts@) =~= vecs_view(old(parts)@) + seq![partv]);
            }
        },
        None => {
            proof {
                assert(vecs_view(parts@) =~= vecs_view(old(parts)@) + opt_part(
                    marker@,
                    opt_view(*v),
                ));
            }
        },
    }
}

impl Host {
    /// The one-line summary shown beside the identifier when the row is
    /// collapsed: the present attributes, each behind its marker, joined by
    /// two spaces.
    pub fn summary_details(&self) -> (r: String)
        ensures
            r@ == summary_details_spec(self@),
    {
        let mut parts: Vec<Vec<char>> = Vec::new();
        proof {
            assert(vecs_view(parts@) =~= Seq::<Seq<char>>::empty());
        }
        push_part(&mut parts, "\u{1f5a5}\u{fe0f} ", &self.host_name);
        push_part(&mut parts, "\u{1f464} ", &self.user);
        let ports: Option<String> = match self.port {
            Some(n) => {
                let d = u32_to_chars(n);
                Some(string_from_chars(d.as_slice()))
            },
            None => None,
        };
        proof {
            assert(opt_view(ports) == port_value(self@.port));
        }
        push_part(&mut parts, "\u{1f6aa} ", &ports);
        push_part(&mut parts, "\u{2197}\u{fe0f}\u{2197}\u{fe0f}", &self.proxy_jump);
        proof {
            assert(vecs_view(parts@) =~= summary_parts(self@));
        }
        let mut out: Vec<char> = Vec::new();
        let mut i: usize = 0;
        while i < parts.len()
            invariant
                0 <= i <= parts@.len(),
                out@ == join_two_spaces(vecs_view(parts@).take(i as int)),
            decreases parts@.len() - i,
        {
            if i > 0 {
                out.push(' ');
                out.push(' ');
            }
            out.extend_from_slice(parts[i].as_slice());
            proof {
                let m = vecs_view(parts@);
                assert(m[i as int] == parts@[i as int]@);
                assert(m.take(i + 1) =~= m.take(i as int).push(m[i as int]));
                lemma_join_two_push(m.take(i as int), m[i as int]);
                assert(out@ =~= join_two_spaces(m.take(i + 1)));
            }
            i += 1;
        }
        proof {
            let m = vecs_view(parts@);
            assert(m.take(m.len() as int) =~= m);
        }
        string_from_chars(out.as_slice())
    }
}

/// One expanded-row attribute line: two spaces, the label, a space, the
/// value; absent attributes are omitted.
pub open spec fn expanded_attr(label: Seq<char>, v: Option<Seq<char>>) -> Seq<Seq<char>> {
    match v {
        Some(x) => seq![seq![' ', ' '] + label + seq![' '] + x],
        None => Seq::empty(),
    }
}

/// The attribute lines of an expanded row, in the fixed order.
pub open spec fn expanded_rows_spec(h: HostV) -> Seq<Seq<char>> {
    expanded_attr("HostName"@, h.host_name) + expanded_attr("Port"@, port_value(h.port))
        + expanded_attr("ProxyJump"@, h.proxy_jump) + expanded_attr("User"@, h.user)
        + expanded_attr("LocalForward"@, h.local_forward) + expanded_attr(
        "IdentityFile"@,
        h.id_file,
    )
}

fn push_attr(rows: &mut Vec<String>, label: &str, v: &Option<String>)
    ensures
        strings_view(final(rows)@) == strings_view(old(rows)@) + expanded_attr(
            label@,
            opt_view(*v),
        ),
{
    match v {
        Some(s) => {
            let mut line: Vec<char> = Vec::new();
            line.push(' ');
            line.push(' ');
            let lc = chars_of(label);
            line.extend_from_slice(lc.as_slice());
            line.push(' ');
            let vc = chars_of(s.as_str());
            line.extend_from_slice(vc.as_slice());
            let row = string_from_chars(line.as_slice());
            let ghost rowv = row@;
            rows.push(row);
            proof {
                assert(rowv == seq![' ', ' '] + label@ + seq![' '] + s@);
                assert(expanded_attr(label@, opt_view(*v)) =~= seq![rowv]);
                assert(strings_view(rows@) =~= strings_view(old(rows)@) + seq![rowv]);
            }
        },
        None => {
            proof {
                assert(strings_view(rows@) =~= strings_view(old(rows)@) + expanded_attr(
                    label@,
                    opt_view(*v),
                ));
            }
        },
    }
}

impl Host {
    /// The attribute lines shown under the identifier when the row is
    /// expanded; absent attributes are omitted.
    pub fn expanded_rows(&self) -> (r: Vec<String>)
        ensures
            strings_view(r@) == expanded_rows_spec(self@),
    {
        let mut rows: Vec<String> = Vec::new();
        proof {
            assert(strings_view(rows@) =~= Seq::<Seq<char>>::empty());
        }
        push_attr(&mut rows, "HostName", &self.host_name);
        let ports: Option<String> = match self.port {
            Some(n) => {
                let d = u32_to_chars(n);
                Some(string_from_chars(d.as_slice()))
            },
            None => None,
        };
        proof {
            assert(opt_view(ports) == port_value(self@.port));
        }
        push_attr(&mut rows, "Port", &ports);
        push_attr(&mut rows, "ProxyJump", &self.proxy_jump);
        push_attr(&mut rows, "User", &self.user);
        push_attr(&mut rows, "LocalForward", &self.local_forward);
        push_attr(&mut rows, "IdentityFile", &self.id_file);
        proof {
            assert(strings_view(rows@) =~= expanded_rows_spec(self@));
        }
        rows
    }
}

} // verus!
