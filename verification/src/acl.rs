//! Access rules: patterns over '/'-segmented names, and the permissions
//! bound to them.

use crate::text::{
    chars_of, contains, count, is_plain, is_plain_text, is_syntax, lemma_replace_absent,
    lemma_replace_adds_no_syntax, lemma_segments_len, lemma_segments_nonempty,
    lemma_segments_step, occurs, replace, replace_all, same_range, same_text, segment_end,
    segments, ANY, SEPARATOR, WILDCARD,
};
use std::borrow::Cow;
use std::str::FromStr;
use vstd::prelude::*;
use vstd::std_specs::cmp::PartialEqSpecImpl;
use vstd::std_specs::convert::{FromSpec, FromSpecImpl, IntoSpec, TryFromSpecImpl};

verus! {

/// Whether one segment of a rule admits one segment of a name: `+` admits
/// any segment, every other segment only itself.
pub open spec fn segment_matches(rule: Seq<char>, name: Seq<char>) -> bool {
    rule == seq![ANY] || rule == name
}

/// Whether the first `k` segments of a rule admit the first `k` segments
/// of a name, each its own.
pub open spec fn matches_up_to(rule: Seq<Seq<char>>, name: Seq<Seq<char>>, k: int) -> bool {
    forall|i: int| 0 <= i < k ==> #[trigger] segment_matches(rule[i], name[i])
}

/// Whether segment `h` of the rule is `#`, the name has a segment there,
/// and all segments before it are admitted.
pub open spec fn wildcard_reached(rule: Seq<Seq<char>>, name: Seq<Seq<char>>, h: int) -> bool {
    &&& 0 <= h < rule.len()
    &&& h < name.len()
    &&& rule[h] == seq![WILDCARD]
    &&& matches_up_to(rule, name, h)
}

/// Whether a rule admits a name. Both are cut into segments. Either the
/// rule reaches a `#` at a segment that the name has too, with every
/// segment before it admitted; or both have the same number of segments
/// and each segment of the name is admitted by the rule's.
pub open spec fn rule_matches(rule: Seq<char>, name: Seq<char>) -> bool {
    let r = segments(rule);
    let n = segments(name);
    ||| exists|h: int| wildcard_reached(r, n, h)
    ||| r.len() == n.len() && matches_up_to(r, n, r.len() as int)
}

/// The same, said as a walk: the segments of the rule and of the name are
/// taken in pairs, from segment `i` on. A `#` in the rule ends the walk
/// with success whatever follows on either side, a `+` passes any segment
/// of the name, and every other segment must be equal to the name's. Where
/// a side runs out, the walk succeeds only if both have.
pub open spec fn walk_matches(rule: Seq<Seq<char>>, name: Seq<Seq<char>>, i: int) -> bool
    decreases rule.len() - i,
{
    if 0 <= i < rule.len() && i < name.len() {
        if rule[i] == seq![WILDCARD] {
            true
        } else if segment_matches(rule[i], name[i]) {
            walk_matches(rule, name, i + 1)
        } else {
            false
        }
    } else {
        i == rule.len() && i == name.len()
    }
}

/// A walk that has passed the first `i` segments without meeting a `#`
/// succeeds exactly where the rule admits the name.
pub proof fn lemma_walk_matches(rule: Seq<Seq<char>>, name: Seq<Seq<char>>, i: int)
    requires
        0 <= i <= rule.len(),
        i <= name.len(),
        matches_up_to(rule, name, i),
        forall|j: int| 0 <= j < i ==> #[trigger] rule[j] != seq![WILDCARD],
    ensures
        walk_matches(rule, name, i) <==> (exists|h: int| wildcard_reached(rule, name, h)) || (
        rule.len() == name.len() && matches_up_to(rule, name, rule.len() as int)),
    decreases rule.len() - i,
{
    if i < rule.len() && i < name.len() {
        if rule[i] == seq![WILDCARD] {
            assert(wildcard_reached(rule, name, i));
        } else if segment_matches(rule[i], name[i]) {
            lemma_walk_matches(rule, name, i + 1);
        } else {
            assert forall|h: int| !wildcard_reached(rule, name, h) by {
                if wildcard_reached(rule, name, h) && h > i {
                    assert(segment_matches(rule[i], name[i]));
                }
            }
        }
    } else {
        assert forall|h: int| !wildcard_reached(rule, name, h) by {
            if wildcard_reached(rule, name, h) {
                assert(h < i);
            }
        }
    }
}

/// A rule admits a name exactly where the walk over their segments, from
/// the first on, succeeds.
pub proof fn lemma_rule_matches_is_walk(rule: Seq<char>, name: Seq<char>)
    ensures
        rule_matches(rule, name) == walk_matches(segments(rule), segments(name), 0),
{
    lemma_walk_matches(segments(rule), segments(name), 0);
}

/// A rule's text after one variable is put in: each occurrence of `token`
/// gives way to `value`, unless `value` holds a separator, `#` or `+`.
/// Then the text stays as it is.
pub open spec fn substitute_one(text: Seq<char>, token: Seq<char>, value: Seq<char>) -> Seq<char> {
    if is_plain(value) {
        replace_all(text, token, value)
    } else {
        text
    }
}

/// A rule's text after the variables are put in, one after the other, each
/// into what the ones before it left.
pub open spec fn substitute(text: Seq<char>, variables: Seq<(Seq<char>, Seq<char>)>) -> Seq<char>
    decreases variables.len(),
{
    if variables.len() == 0 {
        text
    } else {
        let (token, value) = variables.last();
        substitute_one(substitute(text, variables.drop_last()), token, value)
    }
}

/// Putting variables into a rule brings no separator, `#` or `+` into it:
/// the rule has no more of each than before.
pub proof fn lemma_substitute_adds_no_syntax(
    text: Seq<char>,
    variables: Seq<(Seq<char>, Seq<char>)>,
    c: char,
)
    requires
        is_syntax(c),
    ensures
        count(substitute(text, variables), c) <= count(text, c),
    decreases variables.len(),
{
    if variables.len() > 0 {
        let (token, value) = variables.last();
        let before = substitute(text, variables.drop_last());
        lemma_substitute_adds_no_syntax(text, variables.drop_last(), c);
        if is_plain(value) {
            lemma_replace_adds_no_syntax(before, token, value, c);
        }
    }
}

/// Putting variables into a rule gives it no more segments than it had.
pub proof fn lemma_substitute_adds_no_segment(
    text: Seq<char>,
    variables: Seq<(Seq<char>, Seq<char>)>,
)
    ensures
        segments(substitute(text, variables)).len() <= segments(text).len(),
{
    lemma_substitute_adds_no_syntax(text, variables, SEPARATOR);
    lemma_segments_len(text);
    lemma_segments_len(substitute(text, variables));
}

/// A variable whose value holds a separator, `#` or `+` is passed over:
/// the others are put in as though it were not there.
pub proof fn lemma_substitute_skips_unfit(
    text: Seq<char>,
    variables: Seq<(Seq<char>, Seq<char>)>,
    i: int,
)
    requires
        0 <= i < variables.len(),
        !is_plain(variables[i].1),
    ensures
        substitute(text, variables) == substitute(text, variables.remove(i)),
    decreases variables.len(),
{
    let n = variables.len() as int;
    if i == n - 1 {
        assert(variables.remove(i) =~= variables.drop_last());
    } else {
        lemma_substitute_skips_unfit(text, variables.drop_last(), i);
        assert(variables.remove(i).drop_last() =~= variables.drop_last().remove(i));
        assert(variables.remove(i).last() == variables.last());
    }
}

/// The texts of pairs of token and value.
pub open spec fn variables_view(variables: Seq<(&str, &str)>) -> Seq<(Seq<char>, Seq<char>)> {
    variables.map_values(|v: (&str, &str)| (v.0@, v.1@))
}

/// A pattern over '/'-segmented names. It keeps a string that it was
/// given for the whole run of the program without copying it.
#[derive(Debug)]
pub struct AclRule(Cow<'static, str>);

impl View for AclRule {
    type V = Seq<char>;

    closed spec fn view(&self) -> Seq<char> {
        self.0@
    }
}

impl AclRule {
    /// Whether the rule refers to a string that lives as long as the
    /// program, and holds no copy of its own.
    pub closed spec fn borrowed(&self) -> bool {
        self.0 is Borrowed
    }

    /// Whether the rule refers to a string that lives as long as the
    /// program, and holds no copy of its own.
    #[verifier::when_used_as_spec(borrowed)]
    pub fn is_borrowed(&self) -> (b: bool)
        ensures
            b == self.borrowed(),
    {
        match &self.0 {
            Cow::Borrowed(_) => true,
            Cow::Owned(_) => false,
        }
    }

    /// The text of the rule.
    pub fn as_str(&self) -> (s: &str)
        ensures
            s@ == self@,
    {
        match &self.0 {
            Cow::Borrowed(b) => b,
            Cow::Owned(o) => o.as_str(),
        }
    }

    /// Walks the segments of the rule and of the name side by side, once.
    fn matches(&self, path: &str) -> (r: bool)
        ensures
            r == rule_matches(self@, path@),
    {
        let rule = chars_of(self.as_str());
        let name = chars_of(path);
        let ghost rs = segments(rule@);
        let ghost ns = segments(name@);
        let mut ri: usize = 0;
        let mut ni: usize = 0;
        let ghost mut idx: int = 0;
        assert(rule@.skip(0) =~= rule@ && name@.skip(0) =~= name@);
        assert(rs.skip(0) =~= rs && ns.skip(0) =~= ns);
        proof {
            lemma_segments_nonempty(rule@);
            lemma_segments_nonempty(name@);
        }
        loop
            invariant
                rule@ == self@,
                name@ == path@,
                rs == segments(rule@),
                ns == segments(name@),
                ri <= rule.len(),
                ni <= name.len(),
                0 <= idx < rs.len(),
                idx < ns.len(),
                segments(rule@.skip(ri as int)) == rs.skip(idx),
                segments(name@.skip(ni as int)) == ns.skip(idx),
                matches_up_to(rs, ns, idx),
                forall|i: int| 0 <= i < idx ==> #[trigger] rs[i] != seq![WILDCARD],
            decreases rule.len() - ri,
        {
            let re = segment_end(&rule, ri);
            let ne = segment_end(&name, ni);
            proof {
                lemma_segments_step(rule@, ri as int, re as int);
                lemma_segments_step(name@, ni as int, ne as int);
                assert(rs.skip(idx)[0] == rs[idx]);
                assert(ns.skip(idx)[0] == ns[idx]);
                assert(rs.skip(idx).skip(1) =~= rs.skip(idx + 1));
                assert(ns.skip(idx).skip(1) =~= ns.skip(idx + 1));
            }
            let ghost rseg = rule@.subrange(ri as int, re as int);
            let ghost nseg = name@.subrange(ni as int, ne as int);
            assert(rs[idx] == rseg && ns[idx] == nseg);
            if re - ri == 1 && rule[ri] == WILDCARD {
                assert(rseg =~= seq![WILDCARD]);
                assert(wildcard_reached(rs, ns, idx));
                return true;
            }
            assert(rseg != seq![WILDCARD]) by {
                if rseg == seq![WILDCARD] {
                    assert(rseg.len() == 1 && rseg[0] == WILDCARD);
                }
            }
            let any = re - ri == 1 && rule[ri] == ANY;
            assert(any == (rseg == seq![ANY])) by {
                if any {
                    assert(rseg =~= seq![ANY]);
                } else if rseg == seq![ANY] {
                    assert(rseg.len() == 1 && rseg[0] == ANY);
                }
            }
            if !any && !same_range(&rule, ri, re, &name, ni, ne) {
                assert(!segment_matches(rs[idx], ns[idx]));
                assert(!rule_matches(self@, path@)) by {
                    assert forall|h: int| !wildcard_reached(rs, ns, h) by {
                        if wildcard_reached(rs, ns, h) {
                            if h > idx {
                                assert(segment_matches(rs[idx], ns[idx]));
                            }
                        }
                    }
                }
                return false;
            }
            assert(segment_matches(rs[idx], ns[idx]));
            let rule_ends = re == rule.len();
            let name_ends = ne == name.len();
            if rule_ends || name_ends {
                proof {
                    assert(rule_ends ==> rs.len() == idx + 1);
                    assert(name_ends ==> ns.len() == idx + 1);
                    assert(!rule_ends ==> rs.len() > idx + 1) by {
                        if !rule_ends {
                            lemma_segments_nonempty(rule@.skip(re + 1));
                        }
                    }
                    assert(!name_ends ==> ns.len() > idx + 1) by {
                        if !name_ends {
                            lemma_segments_nonempty(name@.skip(ne + 1));
                        }
                    }
                    assert forall|h: int| !wildcard_reached(rs, ns, h) by {
                        if wildcard_reached(rs, ns, h) {
                            assert(h <= idx);
                        }
                    }
                }
                return rule_ends && name_ends;
            }
            ri = re + 1;
            ni = ne + 1;
            proof {
                idx = idx + 1;
                lemma_segments_nonempty(rule@.skip(ri as int));
                lemma_segments_nonempty(name@.skip(ni as int));
            }
        }
    }

    /// The rule with the variables put in: pairs of a token and the value
    /// that takes its place. A value that holds a separator, `#` or `+` is
    /// passed over. A rule whose text comes out as it went in is handed
    /// back as it is held, with no new copy of the text.
    pub fn substitute_variables(&self, variables: &[(&str, &str)]) -> (r: Self)
        ensures
            r@ == substitute(self@, variables_view(variables@)),
            r.borrowed() == (self.borrowed() && r@ == self@),
    {
        let mut substituted = self.clone();
        let ghost vars = variables_view(variables@);
        let mut i: usize = 0;
        assert(vars.take(0) =~= Seq::empty());
        while i < variables.len()
            invariant
                i <= variables.len(),
                vars == variables_view(variables@),
                substituted@ == substitute(self@, vars.take(i as int)),
                substituted.borrowed() == (self.borrowed() && substituted@ == self@),
            decreases variables.len() - i,
        {
            let (name, value) = variables[i];
            proof {
                assert(vars.take(i + 1).drop_last() =~= vars.take(i as int));
                assert(vars.take(i + 1).last() == (name@, value@));
                if !occurs(substituted@, name@) {
                    lemma_replace_absent(substituted@, name@, value@);
                }
            }
            if is_plain_text(value) && contains(substituted.as_str(), name) {
                let replaced = replace(substituted.as_str(), name, value);
                if same_text(replaced.as_str(), self.as_str()) {
                    substituted = self.clone();
                } else {
                    substituted = AclRule(Cow::Owned(replaced));
                }
            }
            i += 1;
        }
        assert(vars.take(variables.len() as int) =~= vars);
        substituted
    }

    /// Whether the rule admits a topic: a name to publish to.
    pub fn matches_topic(&self, topic: &str) -> (r: bool)
        ensures
            r == rule_matches(self@, topic@),
    {
        self.matches(topic)
    }

    /// Whether the rule admits a filter: a pattern to subscribe to. The
    /// filter's own `+` and `#` are segments like any other.
    pub fn matches_filter(&self, filter: &str) -> (r: bool)
        ensures
            r == rule_matches(self@, filter@),
    {
        self.matches(filter)
    }
}

impl Clone for AclRule {
    fn clone(&self) -> (r: Self)
        ensures
            r == *self,
    {
        match &self.0 {
            Cow::Borrowed(b) => AclRule(Cow::Borrowed(b)),
            Cow::Owned(o) => AclRule(Cow::Owned(o.clone())),
        }
    }
}

impl PartialEqSpecImpl for AclRule {
    open spec fn obeys_eq_spec() -> bool {
        true
    }

    open spec fn eq_spec(&self, other: &AclRule) -> bool {
        self@ == other@
    }
}

/// Two rules are equal when their texts are, however each holds it.
impl PartialEq for AclRule {
    fn eq(&self, other: &AclRule) -> (r: bool) {
        same_text(self.as_str(), other.as_str())
    }
}

impl Eq for AclRule {}

impl Default for AclRule {
    /// The rule that admits every name: `#`.
    fn default() -> (r: Self)
        ensures
            r@ == seq![WILDCARD],
            r.borrowed(),
    {
        proof {
            reveal_strlit("#");
        }
        assert("#"@ =~= seq![WILDCARD]);
        AclRule(Cow::Borrowed("#"))
    }
}

impl FromSpecImpl<&'static str> for AclRule {
    open spec fn obeys_from_spec() -> bool {
        true
    }

    closed spec fn from_spec(value: &'static str) -> Self {
        AclRule(Cow::Borrowed(value))
    }
}

impl From<&'static str> for AclRule {
    /// A rule over a string that lives as long as the program: it is
    /// referred to, not copied.
    fn from(value: &'static str) -> (r: Self)
        ensures
            r@ == value@,
            r.borrowed(),
    {
        AclRule(Cow::Borrowed(value))
    }
}

/// What converting a string that lives as long as the program gives: a
/// rule with that text, which refers to the string.
pub proof fn lemma_from_static(value: &'static str)
    ensures
        <AclRule as FromSpec<&'static str>>::from_spec(value)@ == value@,
        <AclRule as FromSpec<&'static str>>::from_spec(value).borrowed(),
{
}

/// What converting an owned string gives: a rule with that text, which
/// holds the string.
pub proof fn lemma_from_string(value: String)
    ensures
        <AclRule as FromSpec<String>>::from_spec(value)@ == value@,
        !<AclRule as FromSpec<String>>::from_spec(value).borrowed(),
{
}

impl FromSpecImpl<String> for AclRule {
    open spec fn obeys_from_spec() -> bool {
        true
    }

    closed spec fn from_spec(value: String) -> Self {
        AclRule(Cow::Owned(value))
    }
}

impl From<String> for AclRule {
    /// A rule that holds the string it is given.
    fn from(value: String) -> (r: Self)
        ensures
            r@ == value@,
            !r.borrowed(),
    {
        AclRule(Cow::Owned(value))
    }
}

impl AsRef<str> for AclRule {
    fn as_ref(&self) -> (s: &str)
        ensures
            s@ == self@,
    {
        self.as_str()
    }
}

/// Why a text is no access entry.
#[derive(Debug, PartialEq, Eq, Structural)]
pub enum AclError {
    /// The text holds no `:`, so it names no permissions.
    NoFlags,
}

impl AclError {
    /// The error in words.
    pub fn to_string(&self) -> (s: String)
        ensures
            s@ == "acl does not contain an ':'"@,
    {
        match self {
            AclError::NoFlags => "acl does not contain an ':'".to_owned(),
        }
    }
}

/// An access entry: a rule, and what it permits on the names it admits.
#[derive(Debug)]
pub struct Acl {
    /// Which names the entry is about.
    pub rule: AclRule,
    /// Whether filters that the rule admits may be subscribed to.
    pub read: bool,
    /// Whether topics that the rule admits may be published to.
    pub write: bool,
}

/// An access entry as plain values.
pub struct AclView {
    pub rule: Seq<char>,
    pub read: bool,
    pub write: bool,
}

impl View for Acl {
    type V = AclView;

    open spec fn view(&self) -> AclView {
        AclView { rule: self.rule@, read: self.read, write: self.write }
    }
}

/// The permissions as text: `r` where reading is permitted, then `w`
/// where writing is.
pub open spec fn flags_text(read: bool, write: bool) -> Seq<char> {
    (if read {
        seq!['r']
    } else {
        Seq::empty()
    }) + (if write {
        seq!['w']
    } else {
        Seq::empty()
    })
}

/// An access entry as text: the rule, `:`, the permissions.
pub open spec fn acl_text(acl: AclView) -> Seq<char> {
    acl.rule + seq![':'] + flags_text(acl.read, acl.write)
}

/// Position of the last `:` in `s`, or -1 where there is none.
pub open spec fn last_colon(s: Seq<char>) -> int
    decreases s.len(),
{
    if s.len() == 0 {
        -1
    } else if s.last() == ':' {
        s.len() - 1
    } else {
        last_colon(s.drop_last())
    }
}

/// The access entry that a text stands for, if it stands for one: the rule
/// is what precedes the last `:`, and what follows it permits reading if
/// it holds an `r`, writing if it holds a `w`.
pub open spec fn parse_acl(s: Seq<char>) -> Option<AclView> {
    let k = last_colon(s);
    if k < 0 {
        None
    } else {
        Some(
            AclView {
                rule: s.take(k),
                read: s.skip(k + 1).contains('r'),
                write: s.skip(k + 1).contains('w'),
            },
        )
    }
}

/// `last_colon` finds the `:` that no other follows.
pub proof fn lemma_last_colon(s: Seq<char>, k: int)
    requires
        0 <= k < s.len(),
        s[k] == ':',
        forall|j: int| k < j < s.len() ==> s[j] != ':',
    ensures
        last_colon(s) == k,
    decreases s.len(),
{
    if s.last() != ':' {
        lemma_last_colon(s.drop_last(), k);
    }
}

/// A text without `:` stands for no access entry, and every other text
/// stands for one.
pub proof fn lemma_parse_needs_colon(s: Seq<char>)
    ensures
        parse_acl(s) is None <==> !s.contains(':'),
    decreases s.len(),
{
    if s.len() > 0 {
        if s.last() == ':' {
            assert(s[s.len() - 1] == ':');
        } else {
            let t = s.drop_last();
            lemma_parse_needs_colon(t);
            if s.contains(':') {
                let i = choose|i: int| 0 <= i < s.len() && s[i] == ':';
                assert(t[i] == ':');
            }
            if t.contains(':') {
                let i = choose|i: int| 0 <= i < t.len() && t[i] == ':';
                assert(s[i] == ':');
            }
        }
    }
}

/// Reading the text of an access entry gives the entry back.
pub proof fn lemma_parse_acl_text(acl: AclView)
    ensures
        parse_acl(acl_text(acl)) == Some(acl),
{
    let flags = flags_text(acl.read, acl.write);
    let text = acl_text(acl);
    let k = acl.rule.len() as int;
    assert(text[k] == ':');
    assert forall|j: int| k < j < text.len() implies text[j] != ':' by {
        assert(text[j] == flags[j - k - 1]);
    }
    lemma_last_colon(text, k);
    assert(text.take(k) =~= acl.rule);
    assert(text.skip(k + 1) =~= flags);
    assert(flags.contains('r') == acl.read) by {
        if acl.read {
            assert(flags[0] == 'r');
        }
    }
    assert(flags.contains('w') == acl.write) by {
        if acl.write {
            assert(flags[flags.len() - 1] == 'w');
        }
    }
}

impl Acl {
    /// An access entry over a rule.
    pub fn new<R: Into<AclRule>>(rule: R, read: bool, write: bool) -> (r: Self)
        ensures
            <R as IntoSpec<AclRule>>::obeys_into_spec() ==> r.rule == rule.into_spec(),
            r.read == read,
            r.write == write,
    {
        Self { rule: rule.into(), read, write }
    }

    /// The entry with the variables put into its rule. The permissions
    /// stay as they are.
    pub fn substitute_variables(&self, variables: &[(&str, &str)]) -> (r: Self)
        ensures
            r.rule@ == substitute(self.rule@, variables_view(variables@)),
            r.rule.borrowed() == (self.rule.borrowed() && r.rule@ == self.rule@),
            r.read == self.read,
            r.write == self.write,
    {
        let rule = self.rule.substitute_variables(variables);
        Self { rule, read: self.read, write: self.write }
    }

    /// The entry as text: the rule, `:`, then `r` and `w` as permitted.
    pub fn to_string(&self) -> (s: String)
        ensures
            s@ == acl_text(self@),
    {
        proof {
            reveal_strlit(":");
            reveal_strlit("r");
            reveal_strlit("w");
        }
        let mut s = self.rule.as_str().to_owned();
        s.append(":");
        if self.read {
            s.append("r");
        }
        if self.write {
            s.append("w");
        }
        assert(s@ =~= acl_text(self@));
        s
    }
}

impl Clone for Acl {
    fn clone(&self) -> (r: Self)
        ensures
            r == *self,
    {
        Self { rule: self.rule.clone(), read: self.read, write: self.write }
    }
}

impl PartialEqSpecImpl for Acl {
    open spec fn obeys_eq_spec() -> bool {
        true
    }

    open spec fn eq_spec(&self, other: &Acl) -> bool {
        self@ == other@
    }
}

impl PartialEq for Acl {
    fn eq(&self, other: &Acl) -> (r: bool) {
        self.rule == other.rule && self.read == other.read && self.write == other.write
    }
}

impl Eq for Acl {}

impl FromStr for Acl {
    type Err = AclError;

    /// Reads an access entry from its text. The text is cut at its last
    /// `:`. Without one it is refused.
    fn from_str(s: &str) -> (r: Result<Self, AclError>)
        ensures
            match r {
                Ok(acl) => parse_acl(s@) == Some(acl@) && !acl.rule.borrowed(),
                Err(e) => parse_acl(s@) is None && e == AclError::NoFlags,
            },
            r is Err <==> !s@.contains(':'),
    {
        proof {
            lemma_parse_needs_colon(s@);
        }
        let chars = chars_of(s);
        let n = chars.len();
        let mut k = n;
        while k > 0 && chars[k - 1] != ':'
            invariant
                k <= n,
                n == chars.len(),
                forall|j: int| k <= j < n ==> chars@[j] != ':',
            decreases k,
        {
            k -= 1;
        }
        if k == 0 {
            assert(!s@.contains(':'));
            return Err(AclError::NoFlags);
        }
        let colon = k - 1;
        proof {
            lemma_last_colon(s@, colon as int);
        }
        let rule = s.substring_char(0, colon).to_owned();
        let mut read = false;
        let mut write = false;
        let ghost flags = s@.skip(colon + 1);
        let mut i = k;
        while i < n
            invariant
                k <= i <= n,
                n == chars.len(),
                chars@ == s@,
                flags == s@.skip(k as int),
                read == flags.take(i - k).contains('r'),
                write == flags.take(i - k).contains('w'),
            decreases n - i,
        {
            let ghost seen = flags.take(i - k);
            let ghost next = flags.take(i + 1 - k);
            assert(next =~= seen.push(chars@[i as int]));
            let ghost c = chars@[i as int];
            assert(next[next.len() - 1] == c);
            assert(next.contains('r') == (seen.contains('r') || c == 'r')) by {
                if seen.contains('r') {
                    let j = choose|j: int| 0 <= j < seen.len() && seen[j] == 'r';
                    assert(next[j] == 'r');
                }
            }
            assert(next.contains('w') == (seen.contains('w') || c == 'w')) by {
                if seen.contains('w') {
                    let j = choose|j: int| 0 <= j < seen.len() && seen[j] == 'w';
                    assert(next[j] == 'w');
                }
            }
            if chars[i] == 'r' {
                read = true;
            }
            if chars[i] == 'w' {
                write = true;
            }
            i += 1;
        }
        assert(flags.take(n - k) =~= flags);
        assert(s@.subrange(0, colon as int) =~= s@.take(colon as int));
        Ok(Acl { rule: AclRule(Cow::Owned(rule)), read, write })
    }
}

impl<'a> TryFromSpecImpl<&'a str> for Acl {
    open spec fn obeys_try_from_spec() -> bool {
        false
    }

    open spec fn try_from_spec(value: &'a str) -> Result<Self, AclError> {
        arbitrary()
    }
}

impl<'a> TryFrom<&'a str> for Acl {
    type Error = AclError;

    /// Reads an access entry from its text, as `from_str` does.
    fn try_from(value: &'a str) -> (r: Result<Self, AclError>)
        ensures
            match r {
                Ok(acl) => parse_acl(value@) == Some(acl@) && !acl.rule.borrowed(),
                Err(e) => parse_acl(value@) is None && e == AclError::NoFlags,
            },
    {
        Self::from_str(value)
    }
}

impl TryFromSpecImpl<String> for Acl {
    open spec fn obeys_try_from_spec() -> bool {
        false
    }

    open spec fn try_from_spec(value: String) -> Result<Self, AclError> {
        arbitrary()
    }
}

impl TryFrom<String> for Acl {
    type Error = AclError;

    /// Reads an access entry from its text, as `from_str` does.
    fn try_from(value: String) -> (r: Result<Self, AclError>)
        ensures
            match r {
                Ok(acl) => parse_acl(value@) == Some(acl@) && !acl.rule.borrowed(),
                Err(e) => parse_acl(value@) is None && e == AclError::NoFlags,
            },
    {
        Self::from_str(value.as_str())
    }
}

impl FromSpecImpl<Acl> for String {
    open spec fn obeys_from_spec() -> bool {
        false
    }

    open spec fn from_spec(value: Acl) -> Self {
        arbitrary()
    }
}

impl From<Acl> for String {
    /// The entry as text, as `to_string` gives it.
    fn from(value: Acl) -> (r: String)
        ensures
            r@ == acl_text(value@),
    {
        value.to_string()
    }
}

} // verus!
