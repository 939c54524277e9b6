use vstd::prelude::*;

use crate::naming::{table_lookup, inst_views, Instance, InstanceView, ServiceKey, ServiceKeyView};
use crate::strutil::{dec_chars, push_dec};

verus! {

// ---------------------------------------------------------------------------
// Escaping a string for a JSON string literal.
// ---------------------------------------------------------------------------

/// The hexadecimal digit character for `d` in 0..16.
pub open spec fn hex_digit(d: int) -> char {
    "0123456789abcdef"@[d]
}

/// The escape of one character inside a JSON string literal.
pub open spec fn escape_char(c: char) -> Seq<char> {
    if c == '"' {
        "\\\""@
    } else if c == '\\' {
        "\\\\"@
    } else if c == '\n' {
        "\\n"@
    } else if c == '\r' {
        "\\r"@
    } else if c == '\t' {
        "\\t"@
    } else if (c as int) == 8 {
        "\\b"@
    } else if (c as int) == 12 {
        "\\f"@
    } else if (c as int) < 32 {
        "\\u00"@ + seq![hex_digit((c as int) / 16), hex_digit((c as int) % 16)]
    } else {
        seq![c]
    }
}

/// The escape of a whole string.
pub open spec fn escape(s: Seq<char>) -> Seq<char>
    decreases s.len(),
{
    if s.len() == 0 {
        Seq::<char>::empty()
    } else {
        escape(s.drop_last()) + escape_char(s.last())
    }
}

/// Appends the JSON escape of `s` to `out`.
pub fn json_escape_into(out: &mut String, s: &str)
    ensures
        final(out)@ == old(out)@ + escape(s@),
{
    let n = s.unicode_len();
    let mut i: usize = 0;
    assert(out@ =~= old(out)@ + escape(s@.subrange(0, 0)));
    while i < n
        invariant
            i <= n,
            n == s@.len(),
            out@ == old(out)@ + escape(s@.subrange(0, i as int)),
        decreases n - i,
    {
        let c = s.get_char(i);
        let cu = c as u32;
        if c == '"' {
            out.append("\\\"");
        } else if c == '\\' {
            out.append("\\\\");
        } else if c == '\n' {
            out.append("\\n");
        } else if c == '\r' {
            out.append("\\r");
        } else if c == '\t' {
            out.append("\\t");
        } else if cu == 8 {
            out.append("\\b");
        } else if cu == 12 {
            out.append("\\f");
        } else if cu < 32 {
            out.append("\\u00");
            let hx = "0123456789abcdef";
            proof {
                reveal_strlit("0123456789abcdef");
            }
            let hi = (cu / 16) as usize;
            let lo = (cu % 16) as usize;
            let hs = hx.substring_ascii(hi, hi + 1);
            out.append(hs);
            let ls = hx.substring_ascii(lo, lo + 1);
            out.append(ls);
            proof {
                assert(hs@ =~= seq![hex_digit((c as int) / 16)]);
                assert(ls@ =~= seq![hex_digit((c as int) % 16)]);
            }
        } else {
            let one = s.substring_char(i, i + 1);
            out.append(one);
            proof {
                assert(one@ =~= seq![c]);
            }
        }
        proof {
            let a = s@.subrange(0, i as int);
            let b = s@.subrange(0, i + 1);
            assert(b.drop_last() =~= a);
            assert(b.last() == s@[i as int]);
            assert(out@ =~= old(out)@ + escape(b));
        }
        i = i + 1;
    }
    proof {
        assert(s@.subrange(0, n as int) =~= s@);
    }
}

// ---------------------------------------------------------------------------
// Rendering an instance list.
// ---------------------------------------------------------------------------

/// The rendering of one instance.
pub open spec fn host_json(h: InstanceView) -> Seq<char> {
    "{\"instanceId\":\""@ + escape(h.instance_id) + "\",\"ip\":\""@ + escape(h.ip)
        + "\",\"port\":"@ + dec_chars(h.port as int) + ",\"healthy\":"@ + (if h.healthy {
        "true"@
    } else {
        "false"@
    }) + "}"@
}

/// The renderings of all instances, joined with a comma.
pub open spec fn hosts_json(l: Seq<InstanceView>) -> Seq<char>
    decreases l.len(),
{
    if l.len() == 0 {
        Seq::<char>::empty()
    } else if l.len() == 1 {
        host_json(l[0])
    } else {
        hosts_json(l.drop_last()) + ","@ + host_json(l.last())
    }
}

/// The rendered instance list of one service: the service's name, the
/// requested clusters, and the filtered instances.
pub open spec fn render_spec(csv: Seq<char>, key: ServiceKeyView, hosts: Seq<InstanceView>) -> Seq<
    char,
> {
    "{\"namespaceId\":\""@ + escape(key.namespace_id) + "\",\"name\":\""@ + escape(key.group_name)
        + "@@"@ + escape(key.service_name) + "\",\"clusters\":\""@ + escape(csv)
        + "\",\"hosts\":["@ + hosts_json(hosts) + "]}"@
}

/// Appends the rendering of one instance to `out`.
fn push_host(out: &mut String, inst: &Instance)
    ensures
        final(out)@ == old(out)@ + host_json(inst@),
{
    out.append("{\"instanceId\":\"");
    json_escape_into(out, inst.instance_id.as_str());
    out.append("\",\"ip\":\"");
    json_escape_into(out, inst.ip.as_str());
    out.append("\",\"port\":");
    push_dec(out, inst.port as u32);
    out.append(",\"healthy\":");
    if inst.healthy {
        out.append("true");
    } else {
        out.append("false");
    }
    out.append("}");
    proof {
        assert(out@ =~= old(out)@ + host_json(inst@));
    }
}

/// Renders the instance list of one service, as `render_spec` describes.
pub fn render_instance_list(clusters_csv: &str, key: &ServiceKey, list: &Vec<Instance>) -> (r:
    String)
    ensures
        r@ == render_spec(clusters_csv@, key@, inst_views(list@)),
{
    let mut out = String::new();
    out.append("{\"namespaceId\":\"");
    json_escape_into(&mut out, key.namespace_id.as_str());
    out.append("\",\"name\":\"");
    json_escape_into(&mut out, key.group_name.as_str());
    out.append("@@");
    json_escape_into(&mut out, key.service_name.as_str());
    out.append("\",\"clusters\":\"");
    json_escape_into(&mut out, clusters_csv);
    out.append("\",\"hosts\":[");
    let ghost head = out@;
    let ghost views = inst_views(list@);
    let n = list.len();
    let mut i: usize = 0;
    assert(out@ =~= head + hosts_json(views.subrange(0, 0)));
    while i < n
        invariant
            i <= n,
            n == views.len(),
            views == inst_views(list@),
            out@ == head + hosts_json(views.subrange(0, i as int)),
        decreases n - i,
    {
        if i > 0 {
            out.append(",");
        }
        push_host(&mut out, &list[i]);
        proof {
            let a = views.subrange(0, i as int);
            let b = views.subrange(0, i + 1);
            assert(b.drop_last() =~= a);
            assert(b.last() == views[i as int]);
            assert(views[i as int] == list@[i as int]@);
            if i == 0 {
                assert(b.len() == 1);
                assert(hosts_json(b) == host_json(b[0]));
                assert(out@ =~= head + hosts_json(b));
            } else {
                assert(out@ =~= head + hosts_json(b));
            }
        }
        i = i + 1;
    }
    out.append("]}");
    proof {
        assert(views.subrange(0, n as int) =~= views);
        assert(out@ =~= render_spec(clusters_csv@, key@, inst_views(list@)));
    }
    out
}

// ---------------------------------------------------------------------------
// The envelope and the compressed datagram body.
// ---------------------------------------------------------------------------

/// The JSON envelope that carries one rendered instance list.
pub open spec fn envelope_spec(data: Seq<char>) -> Seq<char> {
    "{\"type\":\"dom\",\"data\":\""@ + escape(data) + "\"}"@
}

/// Builds the envelope around the rendered instance list `data`.
pub fn build_envelope(data: &str) -> (r: String)
    ensures
        r@ == envelope_spec(data@),
{
    let mut out = String::new();
    out.append("{\"type\":\"dom\",\"data\":\"");
    json_escape_into(&mut out, data);
    out.append("\"}");
    proof {
        assert(out@ =~= envelope_spec(data@));
    }
    out
}

/// What flate2's gzip encoder produces for the given input bytes.
pub uninterp spec fn gzip_of(b: Seq<u8>) -> Seq<u8>;

/// Relies on flate2's `GzEncoder` over a `Vec` sink at the default level:
/// the stream it produces is a function of the input bytes alone (the
/// header carries a zero mtime and a fixed operating-system byte, and
/// DEFLATE at a fixed level is deterministic).
#[verifier::external_body]
fn gzip_compress(data: &[u8]) -> (r: Vec<u8>)
    ensures
        r@ == gzip_of(data@),
{
    let mut enc = flate2::write::GzEncoder::new(Vec::new(), flate2::Compression::default());
    let _ = std::io::Write::write_all(&mut enc, data);
    enc.finish().unwrap_or_default()
}

/// A size-aware compression step: bytes under the threshold pass through
/// unchanged, larger bodies are gzip-compressed.
pub open spec fn gz_spec(b: Seq<u8>, limit: int) -> Seq<u8> {
    if b.len() < limit {
        b
    } else {
        gzip_of(b)
    }
}

/// Compresses `data` when it is at least `limit` bytes long.
pub fn gz_encode(data: &[u8], limit: usize) -> (r: Vec<u8>)
    ensures
        r@ == gz_spec(data@, limit as int),
{
    if data.len() < limit {
        vstd::slice::slice_to_vec(data)
    } else {
        gzip_compress(data)
    }
}

// ---------------------------------------------------------------------------
// Selecting the instances a subscription sees.
// ---------------------------------------------------------------------------

/// The cluster names a filter asks for: an empty filter means every cluster
/// the table currently knows.
pub open spec fn effective_cluster_names(
    clusters: Seq<Seq<char>>,
    t: Seq<(Seq<char>, Seq<InstanceView>)>,
) -> Seq<Seq<char>> {
    if clusters.len() == 0 {
        Seq::new(t.len(), |i: int| t[i].0)
    } else {
        clusters
    }
}

/// Keeps only healthy instances when `only_healthy` is set.
pub open spec fn healthy_filter(l: Seq<InstanceView>, only_healthy: bool) -> Seq<InstanceView>
    decreases l.len(),
{
    if l.len() == 0 {
        Seq::<InstanceView>::empty()
    } else {
        healthy_filter(l.drop_last(), only_healthy) + (if !only_healthy || l.last().healthy {
            seq![l.last()]
        } else {
            Seq::<InstanceView>::empty()
        })
    }
}

/// The instances of the named clusters, in cluster order, health-filtered.
/// A name the table does not know contributes nothing.
pub open spec fn gathered_instances(
    names: Seq<Seq<char>>,
    only_healthy: bool,
    t: Seq<(Seq<char>, Seq<InstanceView>)>,
) -> Seq<InstanceView>
    decreases names.len(),
{
    if names.len() == 0 {
        Seq::<InstanceView>::empty()
    } else {
        gathered_instances(names.drop_last(), only_healthy, t) + (match table_lookup(
            t,
            names.last(),
        ) {
            Some(l) => healthy_filter(l, only_healthy),
            None => Seq::<InstanceView>::empty(),
        })
    }
}

} // verus!
