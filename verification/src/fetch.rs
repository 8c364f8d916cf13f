use vstd::prelude::*;
use crate::text::push_char;

verus! {

/// The server-side carrier of one translation unit's strings: it hands the
/// borrowed, static strings over for serialization.
pub struct LocaleServerFnOutputServer(pub &'static [&'static str]);

impl LocaleServerFnOutputServer {
    pub fn new(strings: &'static [&'static str]) -> (r: Self)
        ensures
            r.0 == strings,
    {
        LocaleServerFnOutputServer(strings)
    }
}

/// The client-side carrier of one translation unit's strings: it owns them,
/// as deserialization hands them over.
pub struct LocaleServerFnOutputClient(pub Vec<String>);

impl LocaleServerFnOutputClient {
    pub fn new(strings: Vec<String>) -> (r: Self)
        ensures
            r.0 == strings,
    {
        LocaleServerFnOutputClient(strings)
    }
}

/// Ghost model of one registered translation unit.
#[verifier::ext_equal]
pub struct EntryM {
    pub locale: Seq<char>,
    pub id: Option<Seq<char>>,
    pub values: Seq<Seq<char>>,
}

/// One registered translation unit: its locale, its optional unit id, and
/// its strings.
pub struct RegisterEntry {
    pub locale: String,
    pub id: Option<String>,
    pub values: Vec<String>,
}

impl View for RegisterEntry {
    type V = EntryM;

    open spec fn view(&self) -> EntryM {
        EntryM {
            locale: self.locale@,
            id: match self.id {
                Some(s) => Some(s@),
                None => None,
            },
            values: Seq::new(self.values@.len(), |i: int| self.values@[i]@),
        }
    }
}

/// The name view of an optional string.
pub open spec fn opt_str_view(s: Option<String>) -> Option<Seq<char>> {
    match s {
        Some(x) => Some(x@),
        None => None,
    }
}

/// The models of the registered units, in registration order.
pub open spec fn entry_ms(s: Seq<RegisterEntry>) -> Seq<EntryM> {
    Seq::new(s.len(), |i: int| s[i]@)
}

/// The register of translation units seen while serving one response, in a
/// deterministic registration order.
pub struct RegisterCtx {
    pub entries: Vec<RegisterEntry>,
}

/// Where the unit with this key sits in the register.
pub open spec fn spec_find_entry(s: Seq<EntryM>, locale: Seq<char>, id: Option<Seq<char>>) -> Option<
    int,
>
    decreases s.len(),
{
    if s.len() == 0 {
        None
    } else if s[0].locale == locale && s[0].id == id {
        Some(0)
    } else {
        match spec_find_entry(s.subrange(1, s.len() as int), locale, id) {
            Some(i) => Some(i + 1),
            None => None,
        }
    }
}

/// What registering a unit does: a unit under the same (locale, id) key is
/// replaced, else the unit is appended; the fresh unit stands last.
pub open spec fn spec_register(s: Seq<EntryM>, e: EntryM) -> Seq<EntryM> {
    match spec_find_entry(s, e.locale, e.id) {
        Some(i) => s.remove(i).push(e),
        None => s.push(e),
    }
}

/// One value quoted for the script: `"` around the characters.
pub open spec fn spec_quoted(v: Seq<char>) -> Seq<char> {
    seq!['"'] + v + seq!['"']
}

/// The values from position `j` on, comma-separated.
pub open spec fn spec_values_from(vs: Seq<Seq<char>>, j: int) -> Seq<char>
    decreases vs.len() - j,
{
    if j < 0 || j >= vs.len() {
        Seq::empty()
    } else if j == 0 {
        spec_quoted(vs[j]) + spec_values_from(vs, j + 1)
    } else {
        seq![','] + spec_quoted(vs[j]) + spec_values_from(vs, j + 1)
    }
}

/// One registered unit rendered as a script object.
pub open spec fn spec_entry_text(e: EntryM) -> Seq<char> {
    "{\"locale\":\""@ + e.locale + (match e.id {
        Some(s) => "\",\"id\":\""@ + s + "\",\"values\":["@,
        None => "\",\"id\":null,\"values\":["@,
    }) + spec_values_from(e.values, 0) + "]}"@
}

/// The units from position `i` on, comma-separated.
pub open spec fn spec_entries_from(s: Seq<EntryM>, i: int) -> Seq<char>
    decreases s.len() - i,
{
    if i < 0 || i >= s.len() {
        Seq::empty()
    } else if i == 0 {
        spec_entry_text(s[i]) + spec_entries_from(s, i + 1)
    } else {
        seq![','] + spec_entry_text(s[i]) + spec_entries_from(s, i + 1)
    }
}

/// The whole script the register serializes to.
pub open spec fn spec_register_text(s: Seq<EntryM>) -> Seq<char> {
    "window.__LEPTOS_I18N_TRANSLATIONS = ["@ + spec_entries_from(s, 0) + "];"@
}

#[verifier::loop_isolation(false)]
fn render_entry(buff: &mut String, e: &RegisterEntry)
    ensures
        final(buff)@ == old(buff)@ + spec_entry_text(e@),
{
    buff.append("{\"locale\":\"");
    buff.append(e.locale.as_str());
    match &e.id {
        Some(id_str) => {
            buff.append("\",\"id\":\"");
            buff.append(id_str.as_str());
            buff.append("\",\"values\":[");
        },
        None => {
            buff.append("\",\"id\":null,\"values\":[");
        },
    }
    let ghost mid = buff@;
    let n = e.values.len();
    let mut j: usize = 0;
    while j < n
        invariant
            j <= n,
            n == e.values@.len(),
            buff@ + spec_values_from(e@.values, j as int) == mid + spec_values_from(e@.values, 0),
        decreases n - j,
    {
        if j != 0 {
            push_char(buff, ',');
        }
        push_char(buff, '"');
        buff.append(e.values[j].as_str());
        push_char(buff, '"');
        proof {
            assert(e@.values[j as int] == e.values@[j as int]@);
            assert(buff@ + spec_values_from(e@.values, j as int + 1) =~= mid + spec_values_from(
                e@.values,
                0,
            ));
        }
        j = j + 1;
    }
    buff.append("]}");
    proof {
        assert(spec_values_from(e@.values, n as int) =~= Seq::<char>::empty());
        assert(buff@ =~= old(buff)@ + spec_entry_text(e@));
    }
}

impl RegisterCtx {
    /// An empty register; one is set up per response.
    pub fn provide_context() -> (r: Self)
        ensures
            r.entries@.len() == 0,
    {
        RegisterCtx { entries: Vec::new() }
    }

    /// Records one translation unit's strings; a unit registered twice under
    /// one (locale, id) key keeps only the later strings.
    #[verifier::loop_isolation(false)]
    pub fn register(&mut self, locale: String, id: Option<String>, values: Vec<String>)
        ensures
            entry_ms(final(self).entries@) == spec_register(
                entry_ms(old(self).entries@),
                EntryM {
                    locale: locale@,
                    id: opt_str_view(id),
                    values: Seq::new(values@.len(), |i: int| values@[i]@),
                },
            ),
    {
        let ghost em = entry_ms(self.entries@);
        let ghost target = EntryM {
            locale: locale@,
            id: opt_str_view(id),
            values: Seq::new(values@.len(), |i: int| values@[i]@),
        };
        proof {
            assert(em.subrange(0, em.len() as int) =~= em);
        }
        let n = self.entries.len();
        let mut i: usize = 0;
        while i < n
            invariant
                i <= n,
                n == em.len(),
                n == self.entries@.len(),
                em == entry_ms(self.entries@),
                locale@ == target.locale,
                opt_str_view(id) == target.id,
                match spec_find_entry(
                    em.subrange(i as int, n as int),
                    target.locale,
                    target.id,
                ) {
                    Some(k) => spec_find_entry(em, target.locale, target.id) == Some(
                        k + i as int,
                    ),
                    None => spec_find_entry(em, target.locale, target.id) is None,
                },
            decreases n - i,
        {
            let ghost tail = em.subrange(i as int, n as int);
            proof {
                assert(tail[0] == em[i as int]);
                assert(tail.subrange(1, tail.len() as int) =~= em.subrange(
                    i as int + 1,
                    n as int,
                ));
            }
            let same_locale = self.entries[i].locale.eq(&locale);
            let same_id = match (&self.entries[i].id, &id) {
                (Some(a), Some(b)) => a.eq(b),
                (None, None) => true,
                _ => false,
            };
            if same_locale && same_id {
                proof {
                    assert(em[i as int].locale == target.locale && em[i as int].id == target.id);
                }
                let _old_entry = self.entries.remove(i);
                self.entries.push(RegisterEntry { locale, id, values });
                proof {
                    assert(entry_ms(self.entries@) =~= em.remove(i as int).push(target));
                }
                return ;
            }
            i = i + 1;
        }
        proof {
            assert(em.subrange(n as int, n as int) =~= Seq::<EntryM>::empty());
        }
        self.entries.push(RegisterEntry { locale, id, values });
        proof {
            assert(entry_ms(self.entries@) =~= em.push(target));
        }
    }

    /// Serializes every registered unit into the script that seeds the
    /// client-side store, in registration order.
    #[verifier::loop_isolation(false)]
    pub fn to_array(&self) -> (r: String)
        ensures
            r@ == spec_register_text(entry_ms(self.entries@)),
    {
        let ghost em = entry_ms(self.entries@);
        let mut buff = String::from_str("window.__LEPTOS_I18N_TRANSLATIONS = [");
        let ghost head = buff@;
        let n = self.entries.len();
        let mut i: usize = 0;
        while i < n
            invariant
                i <= n,
                n == em.len(),
                n == self.entries@.len(),
                em == entry_ms(self.entries@),
                buff@ + spec_entries_from(em, i as int) == head + spec_entries_from(em, 0),
            decreases n - i,
        {
            if i != 0 {
                push_char(&mut buff, ',');
            }
            render_entry(&mut buff, &self.entries[i]);
            proof {
                assert(em[i as int] == self.entries@[i as int]@);
                assert(buff@ + spec_entries_from(em, i as int + 1) =~= head + spec_entries_from(
                    em,
                    0,
                ));
            }
            i = i + 1;
        }
        buff.append("];");
        proof {
            assert(spec_entries_from(em, n as int) =~= Seq::<char>::empty());
            assert(buff@ =~= spec_register_text(em));
        }
        buff
    }
}

} // verus!
