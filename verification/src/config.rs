use vstd::prelude::*;

use crate::strutil::{
    all_dec_digits, dec_chars, dec_val, parse_u32, push_dec, rfind_char, str_rfind,
};

verus! {

// ---------------------------------------------------------------------------
// Configuration records.
// ---------------------------------------------------------------------------

/// The key of one configuration entry.
pub struct ConfigKey {
    pub data_id: String,
    pub group: String,
    pub tenant: String,
}

impl ConfigKey {
    pub fn new(data_id: String, group: String, tenant: String) -> (r: Self)
        ensures
            r.data_id@ == data_id@,
            r.group@ == group@,
            r.tenant@ == tenant@,
    {
        ConfigKey { data_id, group, tenant }
    }
}

/// The value of one configuration entry.
pub struct ConfigValue {
    pub content: String,
    pub md5: String,
}

impl ConfigValue {
    pub fn new(content: String, md5: String) -> (r: Self)
        ensures
            r.content@ == content@,
            r.md5@ == md5@,
    {
        ConfigValue { content, md5 }
    }
}

/// A stored configuration record.
#[derive(Debug, PartialEq)]
pub struct Config {
    pub id: i64,
    pub tenant: String,
    pub group: String,
    pub data_id: String,
    pub content: String,
    pub content_md5: String,
    pub last_time: i64,
}

/// The view of a `Config`.
pub struct ConfigView {
    pub id: i64,
    pub tenant: Seq<char>,
    pub group: Seq<char>,
    pub data_id: Seq<char>,
    pub content: Seq<char>,
    pub content_md5: Seq<char>,
    pub last_time: i64,
}

impl View for Config {
    type V = ConfigView;

    open spec fn view(&self) -> ConfigView {
        ConfigView {
            id: self.id,
            tenant: self.tenant@,
            group: self.group@,
            data_id: self.data_id@,
            content: self.content@,
            content_md5: self.content_md5@,
            last_time: self.last_time,
        }
    }
}

impl Clone for Config {
    fn clone(&self) -> (r: Self)
        ensures
            r@ == self@,
    {
        Config {
            id: self.id,
            tenant: self.tenant.clone(),
            group: self.group.clone(),
            data_id: self.data_id.clone(),
            content: self.content.clone(),
            content_md5: self.content_md5.clone(),
            last_time: self.last_time,
        }
    }
}

/// The views of a list of records.
pub open spec fn cfg_views(v: Seq<Config>) -> Seq<ConfigView> {
    Seq::new(v.len(), |i: int| v[i]@)
}

/// `tenant_group_dataid`: the in-store identity of a record.
pub open spec fn joined_key(tenant: Seq<char>, group: Seq<char>, data_id: Seq<char>) -> Seq<char> {
    tenant + "_"@ + group + "_"@ + data_id
}

impl Config {
    /// The record's identity string.
    pub fn get_key(&self) -> (r: String)
        ensures
            r@ == joined_key(self.tenant@, self.group@, self.data_id@),
    {
        let mut out = String::new();
        out.append(self.tenant.as_str());
        out.append("_");
        out.append(self.group.as_str());
        out.append("_");
        out.append(self.data_id.as_str());
        proof {
            assert(out@ =~= joined_key(self.tenant@, self.group@, self.data_id@));
        }
        out
    }
}

/// The store key of the current version of a record.
pub fn config_db_key(c: &Config) -> (r: String)
    ensures
        r@ == "config$"@ + joined_key(c.tenant@, c.group@, c.data_id@),
{
    let mut out = String::new();
    out.append("config$");
    let k = c.get_key();
    out.append(k.as_str());
    proof {
        assert(out@ =~= "config$"@ + joined_key(c.tenant@, c.group@, c.data_id@));
    }
    out
}

/// The store-key prefix under which a record's history versions live.
pub fn config_history_db_key(c: &Config) -> (r: String)
    ensures
        r@ == "confighistory$"@ + joined_key(c.tenant@, c.group@, c.data_id@),
{
    let mut out = String::new();
    out.append("confighistory$");
    let k = c.get_key();
    out.append(k.as_str());
    proof {
        assert(out@ =~= "confighistory$"@ + joined_key(c.tenant@, c.group@, c.data_id@));
    }
    out
}

// ---------------------------------------------------------------------------
// Data-access parameter records.
// ---------------------------------------------------------------------------

/// A persisted form of one configuration entry.
pub struct ConfigDO {
    pub id: Option<i64>,
    pub data_id: Option<String>,
    pub group: Option<String>,
    pub tenant: Option<String>,
    pub content: Option<String>,
    pub content_md5: Option<String>,
    pub last_time: Option<i64>,
}

/// A persisted form of one history version.
pub struct ConfigHistoryDO {
    pub id: Option<i64>,
    pub data_id: Option<String>,
    pub group: Option<String>,
    pub tenant: Option<String>,
    pub content: Option<String>,
    pub last_time: Option<i64>,
}

/// A query filter over configuration entries.
pub struct ConfigParam {
    pub id: Option<i64>,
    pub data_id: Option<String>,
    pub group: Option<String>,
    pub tenant: Option<String>,
}

impl Default for ConfigParam {
    fn default() -> (r: Self)
        ensures
            r.id is None,
            r.data_id is None,
            r.group is None,
            r.tenant is None,
    {
        ConfigParam { id: None, data_id: None, group: None, tenant: None }
    }
}

/// A query filter over history versions, with paging.
pub struct ConfigHistoryParam {
    pub id: Option<i64>,
    pub data_id: Option<String>,
    pub group: Option<String>,
    pub tenant: Option<String>,
    pub order_by: Option<String>,
    pub order_by_desc: Option<bool>,
    pub limit: Option<usize>,
    pub offset: Option<usize>,
}

impl Default for ConfigHistoryParam {
    fn default() -> (r: Self)
        ensures
            r.id is None,
            r.data_id is None,
            r.group is None,
            r.tenant is None,
            r.order_by is None,
            r.order_by_desc is None,
            r.limit is None,
            r.offset is None,
    {
        ConfigHistoryParam {
            id: None,
            data_id: None,
            group: None,
            tenant: None,
            order_by: None,
            order_by_desc: None,
            limit: None,
            offset: None,
        }
    }
}

/// Does the option hold a string whose view is `s`?
pub open spec fn opt_str_is(o: Option<String>, s: Seq<char>) -> bool {
    match o {
        Some(x) => x@ == s,
        None => false,
    }
}

/// Relies on chrono's `Local::now().timestamp_millis()` for the wall
/// clock; nothing is promised of the value it returns.
#[verifier::external_body]
fn now_timestamp_millis() -> i64 {
    chrono::Local::now().timestamp_millis()
}

/// The persisted form of an entry, stamped with the wall clock.
pub fn convert_to_config_do(key: &ConfigKey, val: &ConfigValue) -> (r: ConfigDO)
    ensures
        r.id is None,
        opt_str_is(r.data_id, key.data_id@),
        opt_str_is(r.group, key.group@),
        opt_str_is(r.tenant, key.tenant@),
        opt_str_is(r.content, val.content@),
        r.content_md5 is None,
        r.last_time is Some,
{
    ConfigDO {
        id: None,
        data_id: Some(key.data_id.clone()),
        group: Some(key.group.clone()),
        tenant: Some(key.tenant.clone()),
        content: Some(val.content.clone()),
        content_md5: None,
        last_time: Some(now_timestamp_millis()),
    }
}

/// The persisted form of a history version, stamped with the wall clock.
pub fn convert_to_config_history_do(key: &ConfigKey, val: &ConfigValue) -> (r: ConfigHistoryDO)
    ensures
        r.id is None,
        opt_str_is(r.data_id, key.data_id@),
        opt_str_is(r.group, key.group@),
        opt_str_is(r.tenant, key.tenant@),
        opt_str_is(r.content, val.content@),
        r.last_time is Some,
{
    ConfigHistoryDO {
        id: None,
        data_id: Some(key.data_id.clone()),
        group: Some(key.group.clone()),
        tenant: Some(key.tenant.clone()),
        content: Some(val.content.clone()),
        last_time: Some(now_timestamp_millis()),
    }
}

/// The query filter for an entry; every field takes the key's data id.
pub fn convert_to_config_param(key: &ConfigKey) -> (r: ConfigParam)
    ensures
        r.id is None,
        opt_str_is(r.data_id, key.data_id@),
        opt_str_is(r.tenant, key.data_id@),
        opt_str_is(r.group, key.data_id@),
{
    ConfigParam {
        data_id: Some(key.data_id.clone()),
        tenant: Some(key.data_id.clone()),
        group: Some(key.data_id.clone()),
        ..Default::default()
    }
}

/// The history query filter for an entry; every field takes the key's
/// data id.
pub fn convert_to_config_history_param(key: &ConfigKey) -> (r: ConfigHistoryParam)
    ensures
        r.id is None,
        opt_str_is(r.data_id, key.data_id@),
        opt_str_is(r.tenant, key.data_id@),
        opt_str_is(r.group, key.data_id@),
        r.order_by is None,
        r.order_by_desc is None,
        r.limit is None,
        r.offset is None,
{
    ConfigHistoryParam {
        data_id: Some(key.data_id.clone()),
        tenant: Some(key.data_id.clone()),
        group: Some(key.data_id.clone()),
        ..Default::default()
    }
}

// ---------------------------------------------------------------------------
// History versioning.
// ---------------------------------------------------------------------------

/// The characters after the last `_` of `s` (all of `s` when it has none).
pub open spec fn suffix_after_underscore(s: Seq<char>) -> Seq<char> {
    s.subrange(rfind_char(s, '_') + 1, s.len() as int)
}

/// The store key of the next history version: the history prefix, an
/// underscore, and one more than the version index carried by the newest
/// existing history key (1 when there is none yet).  `None` when that
/// key's trailing index is not a number, or the next index does not fit.
pub fn next_history_key(his_key: &String, last_key: Option<&String>) -> (r: Option<String>)
    ensures
        match r {
            Some(nk) => match last_key {
                Some(lk) => {
                    let sfx = suffix_after_underscore(lk@);
                    &&& sfx.len() > 0
                    &&& all_dec_digits(sfx)
                    &&& dec_val(sfx) < u32::MAX as int
                    &&& nk@ == his_key@ + "_"@ + dec_chars(dec_val(sfx) + 1)
                },
                None => nk@ == his_key@ + "_1"@,
            },
            None => match last_key {
                Some(lk) => {
                    let sfx = suffix_after_underscore(lk@);
                    sfx.len() == 0 || !all_dec_digits(sfx) || dec_val(sfx) >= u32::MAX as int
                },
                None => false,
            },
        },
{
    match last_key {
        Some(lk) => {
            let n = lk.as_str().unicode_len();
            let from: usize = match str_rfind(lk.as_str(), '_') {
                Some(p) => {
                    assert(p < n);
                    p + 1
                },
                None => 0,
            };
            let sfx = lk.as_str().substring_char(from, n);
            proof {
                assert(sfx@ =~= suffix_after_underscore(lk@));
            }
            match parse_u32(sfx) {
                Some(idx) => {
                    if idx < u32::MAX {
                        let mut out = his_key.clone();
                        out.append("_");
                        push_dec(&mut out, idx + 1);
                        proof {
                            assert(out@ =~= his_key@ + "_"@ + dec_chars(
                                dec_val(suffix_after_underscore(lk@)) + 1,
                            ));
                        }
                        Some(out)
                    } else {
                        None
                    }
                },
                None => None,
            }
        },
        None => {
            let mut out = his_key.clone();
            out.append("_1");
            proof {
                assert(out@ =~= his_key@ + "_1"@);
            }
            Some(out)
        },
    }
}

/// The store-key prefix of the history versions a query asks about;
/// `None` unless the query names tenant, group and data id.
pub fn history_key_prefix(param: &ConfigHistoryParam) -> (r: Option<String>)
    ensures
        match (param.tenant, param.group, param.data_id) {
            (Some(t), Some(g), Some(id)) => match r {
                Some(k) => k@ == "confighistory$"@ + joined_key(t@, g@, id@),
                None => false,
            },
            _ => r is None,
        },
{
    match (&param.tenant, &param.group, &param.data_id) {
        (Some(t), Some(g), Some(id)) => {
            let mut out = String::new();
            out.append("confighistory$");
            out.append(t.as_str());
            out.append("_");
            out.append(g.as_str());
            out.append("_");
            out.append(id.as_str());
            proof {
                assert(out@ =~= "confighistory$"@ + joined_key(t@, g@, id@));
            }
            Some(out)
        },
        _ => None,
    }
}

// ---------------------------------------------------------------------------
// Paging over history versions.
// ---------------------------------------------------------------------------

/// The window a page request selects: nothing without an offset, and
/// otherwise up to `limit` records from `offset` on (all of them without
/// a limit).
pub open spec fn page_spec(
    s: Seq<ConfigView>,
    offset: Option<usize>,
    limit: Option<usize>,
) -> Seq<ConfigView> {
    match offset {
        None => Seq::<ConfigView>::empty(),
        Some(o) => {
            let start: int = if o <= s.len() {
                o as int
            } else {
                s.len() as int
            };
            let end: int = match limit {
                None => s.len() as int,
                Some(l) => if start + l <= s.len() {
                    start + l
                } else {
                    s.len() as int
                },
            };
            s.subrange(start, end)
        },
    }
}

/// Selects one page of history versions; the total count is the whole
/// list's length.
pub fn select_history_page(list: Vec<Config>, offset: Option<usize>, limit: Option<usize>) -> (r:
    (usize, Vec<Config>))
    ensures
        r.0 == list@.len(),
        cfg_views(r.1@) == page_spec(cfg_views(list@), offset, limit),
{
    let total = list.len();
    let ghost sv = cfg_views(list@);
    match offset {
        None => {
            let page: Vec<Config> = Vec::new();
            proof {
                assert(cfg_views(page@) =~= page_spec(sv, offset, limit));
            }
            (total, page)
        },
        Some(o) => {
            let start: usize = if o <= total {
                o
            } else {
                total
            };
            let end: usize = match limit {
                None => total,
                Some(l) => if l <= total - start {
                    start + l
                } else {
                    total
                },
            };
            let mut page: Vec<Config> = Vec::new();
            let mut i: usize = start;
            assert(cfg_views(page@) =~= sv.subrange(start as int, start as int));
            while i < end
                invariant
                    start <= i <= end,
                    end <= total,
                    total == list@.len(),
                    sv == cfg_views(list@),
                    cfg_views(page@) == sv.subrange(start as int, i as int),
                decreases end - i,
            {
                let ghost pre = page@;
                page.push(list[i].clone());
                proof {
                    assert(cfg_views(page@) =~= cfg_views(pre).push(list@[i as int]@));
                    assert(cfg_views(page@) =~= sv.subrange(start as int, i + 1));
                }
                i = i + 1;
            }
            proof {
                assert(cfg_views(page@) =~= page_spec(sv, offset, limit));
            }
            (total, page)
        },
    }
}

} // verus!
