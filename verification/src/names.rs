use vstd::prelude::*;
use crate::colors::{bright_black, is_bright_black_form};
use crate::seqs::{first_index_of, lemma_first_index_of, lemma_first_index_of_at};

verus! {

/// A name that is either plain (`name`) or qualified by the plugin that
/// produced it (`plugin:name`).
#[derive(Debug, Clone, PartialEq, Eq, Hash)]
pub enum NormalOrPluginName {
    Normal(String),
    Plugin { plugin_name: String, name: String },
}

/// The view of a `NormalOrPluginName`.
pub enum NameView {
    Normal(Seq<char>),
    Plugin(Seq<char>, Seq<char>),
}

impl View for NormalOrPluginName {
    type V = NameView;

    open spec fn view(&self) -> NameView {
        match self {
            NormalOrPluginName::Normal(n) => NameView::Normal(n@),
            NormalOrPluginName::Plugin { plugin_name, name } => NameView::Plugin(plugin_name@, name@),
        }
    }
}

/// Index of the first `':'` in `s`, if any.
pub open spec fn first_colon(s: Seq<char>) -> Option<int> {
    first_index_of(s, ':')
}

/// How a string is read as a name: split at its first `':'` into plugin name
/// and name, or taken whole as a plain name when it has none.
pub open spec fn parse_name(s: Seq<char>) -> NameView {
    match first_colon(s) {
        Some(i) => NameView::Plugin(s.take(i), s.skip(i + 1)),
        None => NameView::Normal(s),
    }
}

/// How a name is written: `name`, or `plugin_name:name`.
pub open spec fn display_name(n: NameView) -> Seq<char> {
    match n {
        NameView::Normal(s) => s,
        NameView::Plugin(p, s) => p + seq![':'] + s,
    }
}

pub proof fn lemma_first_colon(s: Seq<char>)
    ensures
        match first_colon(s) {
            Some(i) => 0 <= i < s.len() && s[i] == ':' && forall|j: int| 0 <= j < i ==> s[j] != ':',
            None => forall|j: int| 0 <= j < s.len() ==> s[j] != ':',
        },
{
    lemma_first_index_of(s, ':');
}

pub proof fn lemma_first_colon_of(s: Seq<char>, i: int)
    requires
        0 <= i < s.len(),
        s[i] == ':',
        forall|j: int| 0 <= j < i ==> s[j] != ':',
    ensures
        first_colon(s) == Some(i),
{
    lemma_first_index_of_at(s, ':', i);
}

/// Writing out the name read from a string gives back that string.
pub proof fn lemma_display_parse(s: Seq<char>)
    ensures
        display_name(parse_name(s)) == s,
{
    lemma_first_colon(s);
    match first_colon(s) {
        Some(i) => {
            assert(s.take(i) + seq![':'] + s.skip(i + 1) =~= s);
        },
        None => {},
    }
}

/// Reading a written-out name gives back that name, as long as its plain name,
/// or its plugin name, holds no `':'`.
pub proof fn lemma_parse_display(n: NameView)
    requires
        match n {
            NameView::Normal(s) => !s.contains(':'),
            NameView::Plugin(p, _) => !p.contains(':'),
        },
    ensures
        parse_name(display_name(n)) == n,
{
    match n {
        NameView::Normal(s) => {
            lemma_first_colon(s);
            if first_colon(s) is Some {
                let i = first_colon(s)->0;
                assert(s[i] == ':');
            }
        },
        NameView::Plugin(p, s) => {
            let d = p + seq![':'] + s;
            assert forall|j: int| 0 <= j < p.len() implies d[j] != ':' by {
                assert(d[j] == p[j]);
                if p[j] == ':' {
                    assert(p.contains(':'));
                }
            }
            assert(d[p.len() as int] == ':');
            lemma_first_colon_of(d, p.len() as int);
            assert(d.take(p.len() as int) =~= p);
            assert(d.skip(p.len() as int + 1) =~= s);
        },
    }
}

/// Reading names from strings is injective.
pub proof fn lemma_parse_name_injective(s: Seq<char>, t: Seq<char>)
    requires
        parse_name(s) == parse_name(t),
    ensures
        s == t,
{
    lemma_display_parse(s);
    lemma_display_parse(t);
}

/// Converts a `&str` into an owned `String` with the same characters.
pub fn str_to_string(s: &str) -> (r: String)
    ensures
        r@ == s@,
{
    let r = s.to_string();
    proof {
        vstd::string::to_string_from_display_ensures_for_str(s, r);
    }
    r
}

/// Appends `t` to `s`.
pub fn concat_str(s: String, t: &str) -> (r: String)
    ensures
        r@ == s@ + t@,
{
    let mut s = s;
    s.append(t);
    s
}

impl NormalOrPluginName {
    /// Writes the name out: `name`, or `plugin_name:name`.
    pub fn to_display_string(&self) -> (r: String)
        ensures
            r@ == display_name(self@),
    {
        match self {
            NormalOrPluginName::Normal(name) => name.clone(),
            NormalOrPluginName::Plugin { plugin_name, name } => {
                let s = concat_str(plugin_name.clone(), ":");
                proof {
                    reveal_strlit(":");
                }
                let r = concat_str(s, name.as_str());
                r
            },
        }
    }
}

/// How a name is shown to the user: like `display_name`, but with the plugin
/// name in bright black.
pub open spec fn is_pretty_name(n: NameView, r: Seq<char>) -> bool {
    match n {
        NameView::Normal(s) => r == s,
        NameView::Plugin(p, s) => {
            &&& r.len() > s.len()
            &&& is_bright_black_form(p, r.take(r.len() - s.len() - 1))
            &&& r.skip(r.len() - s.len() - 1) == seq![':'] + s
        },
    }
}

impl NormalOrPluginName {
    /// The name as shown to the user, with the plugin name dimmed.
    pub fn pretty_fmt(&self) -> (r: String)
        ensures
            is_pretty_name(self@, r@),
    {
        match self {
            NormalOrPluginName::Normal(name) => {
                let plain = name.clone();
                proof {
                    assert(self@ == NameView::Normal(name@));
                    assert(plain@ == name@);
                    assert(is_pretty_name(self@, plain@));
                }
                plain
            },
            NormalOrPluginName::Plugin { plugin_name, name } => {
                let colored_plugin_name = bright_black(plugin_name.as_str());
                let s = concat_str(colored_plugin_name, ":");
                proof {
                    reveal_strlit(":");
                    assert(":"@ =~= seq![':']);
                    assert(is_bright_black_form(plugin_name@, colored_plugin_name@));
                }
                let shown = concat_str(s, name.as_str());
                proof {
                    assert(shown@ == colored_plugin_name@ + seq![':'] + name@);
                    assert(shown@.take(shown@.len() - name@.len() - 1) =~= colored_plugin_name@);
                    assert(shown@.skip(shown@.len() - name@.len() - 1) =~= seq![':'] + name@);
                }
                shown
            },
        }
    }
}

impl From<String> for NormalOrPluginName {
    /// Reads a name: the text before the first `':'` is the plugin name, the
    /// rest the name; without a `':'` the whole text is a plain name.
    fn from(value: String) -> (r: Self)
        ensures
            r@ == parse_name(value@),
    {
        match split_once_char(value.as_str(), ':') {
            Some((plugin_name, name)) => NormalOrPluginName::Plugin { plugin_name, name },
            None => NormalOrPluginName::Normal(value),
        }
    }
}

/// Splits `s` at the first occurrence of `c` into the text before and the
/// text after it; `None` when `c` does not occur.
pub fn split_once_char(s: &str, c: char) -> (r: Option<(String, String)>)
    ensures
        match first_index_of(s@, c) {
            Some(i) => r matches Some((before, after)) && before@ == s@.take(i) && after@ == s@.skip(i + 1),
            None => r is None,
        },
{
    let n = s.unicode_len();
    let mut i: usize = 0;
    while i < n
        invariant
            n == s@.len(),
            i <= n,
            forall|j: int| 0 <= j < i ==> s@[j] != c,
        decreases n - i,
    {
        if s.get_char(i) == c {
            proof {
                lemma_first_index_of_at(s@, c, i as int);
            }
            let before = str_to_string(s.substring_char(0, i));
            let after = str_to_string(s.substring_char(i + 1, n));
            return Some((before, after));
        }
        i = i + 1;
    }
    proof {
        lemma_first_index_of(s@, c);
        if first_index_of(s@, c) is Some {
            let k = first_index_of(s@, c)->0;
            assert(s@[k] == c);
        }
    }
    None
}

/// A name read from `v` as `parse_name` says. Names are equal here only up to
/// the views of their strings, so `from` is not claimed to return this very
/// value (`obeys_from_spec` is false); its own `ensures` states the view.
impl vstd::std_specs::convert::FromSpecImpl<String> for NormalOrPluginName {
    open spec fn obeys_from_spec() -> bool {
        false
    }

    open spec fn from_spec(v: String) -> Self {
        choose|n: NormalOrPluginName| n@ == parse_name(v@)
    }
}

}
