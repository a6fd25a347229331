//! Domain names: ordered label sequences, matched case-insensitively.

use vstd::prelude::*;
use crate::ascii::{lower_char, seq_lower, lower_str};
use vstd::utf8::is_ascii_chars;

verus! {

/// Characters permitted inside a domain label.
pub open spec fn valid_label_char(c: char) -> bool {
    ('a' <= c && c <= 'z') || ('A' <= c && c <= 'Z') || ('0' <= c && c <= '9') || c == '-'
}

/// A label is 1 to 63 permitted characters.
pub open spec fn valid_label(s: Seq<char>) -> bool {
    1 <= s.len() <= 63 && forall|i: int| 0 <= i < s.len() ==> valid_label_char(#[trigger] s[i])
}

/// The length of the dot-joined name, counting one separator per label.
pub open spec fn joined_len(labels: Seq<Seq<char>>) -> int
    decreases labels.len(),
{
    if labels.len() == 0 {
        0
    } else {
        joined_len(labels.drop_last()) + labels.last().len() + 1
    }
}

/// Every label is valid and the joined name fits in a DNS name.
pub open spec fn domain_wf(labels: Seq<Seq<char>>) -> bool {
    (forall|i: int| 0 <= i < labels.len() ==> valid_label(#[trigger] labels[i])) && joined_len(
        labels,
    ) <= 254
}

/// `d` ends with the labels of `suffix`, compared case-insensitively.
pub open spec fn spec_ends_with(d: Seq<Seq<char>>, suffix: Seq<Seq<char>>) -> bool {
    d.len() >= suffix.len() && forall|i: int|
        0 <= i < suffix.len() ==> seq_lower(d[d.len() - suffix.len() + i]) == seq_lower(
            #[trigger] suffix[i],
        )
}

/// Splitting a character sequence at every `'.'`; a sequence without dots is
/// one label, and each dot separates two (possibly empty) labels.
pub open spec fn split_dot(s: Seq<char>) -> Seq<Seq<char>>
    decreases s.len(),
{
    if s.len() == 0 {
        seq![Seq::<char>::empty()]
    } else if s[0] == '.' {
        seq![Seq::<char>::empty()] + split_dot(s.drop_first())
    } else {
        let rest = split_dot(s.drop_first());
        rest.update(0, seq![s[0]] + rest[0])
    }
}

pub proof fn lemma_split_dot_nonempty(s: Seq<char>)
    ensures
        split_dot(s).len() >= 1,
    decreases s.len(),
{
    if s.len() == 0 {
    } else {
        lemma_split_dot_nonempty(s.drop_first());
    }
}

/// A dot-free sequence splits into exactly itself.
pub proof fn lemma_split_no_dot(s: Seq<char>)
    requires
        forall|i: int| 0 <= i < s.len() ==> s[i] != '.',
    ensures
        split_dot(s) == seq![s],
    decreases s.len(),
{
    if s.len() == 0 {
        assert(split_dot(s) =~~= seq![s]);
    } else {
        lemma_split_no_dot(s.drop_first());
        lemma_split_dot_nonempty(s.drop_first());
        assert(seq![s[0]] + s.drop_first() =~= s);
        assert(split_dot(s) =~~= seq![s]);
    }
}

/// Splitting `a.b` where `a` is dot-free yields `a` followed by the split of
/// `b`.
pub proof fn lemma_split_dot_step(a: Seq<char>, b: Seq<char>)
    requires
        forall|i: int| 0 <= i < a.len() ==> a[i] != '.',
    ensures
        split_dot(a + seq!['.'] + b) == seq![a] + split_dot(b),
    decreases a.len(),
{
    let s = a + seq!['.'] + b;
    if a.len() == 0 {
        assert(s[0] == '.');
        assert(s.drop_first() =~= b);
        assert(split_dot(s) =~~= seq![a] + split_dot(b));
    } else {
        lemma_split_dot_step(a.drop_first(), b);
        lemma_split_dot_nonempty(b);
        assert(s[0] == a[0]);
        assert(s.drop_first() =~= a.drop_first() + seq!['.'] + b);
        let rest = split_dot(s.drop_first());
        assert(rest == seq![a.drop_first()] + split_dot(b));
        assert(rest[0] == a.drop_first());
        assert(seq![s[0]] + a.drop_first() =~= a);
        assert(split_dot(s) =~~= seq![a] + split_dot(b));
    }
}

/// Valid labels are ASCII.
pub proof fn lemma_valid_label_ascii(s: Seq<char>)
    requires
        valid_label(s),
    ensures
        is_ascii_chars(s),
{
    assert forall|i: int| 0 <= i < s.len() implies '\0' <= #[trigger] s[i] <= '\u{7f}' by {
        assert(valid_label_char(s[i]));
    }
}

/// A DNS domain name: an ordered sequence of labels. Matching for protocol
/// purposes is case-insensitive; the stored spelling is preserved.
#[derive(Debug, PartialEq)]
pub struct Domain {
    labels: Vec<String>,
}

impl View for Domain {
    type V = Seq<Seq<char>>;

    closed spec fn view(&self) -> Seq<Seq<char>> {
        self.labels.deep_view()
    }
}

impl Domain {
    pub open spec fn wf(&self) -> bool {
        domain_wf(self@)
    }

    /// Build a domain from labels; fails unless every label is valid and the
    /// joined name fits.
    pub fn from_parts(parts: Vec<String>) -> (r: Result<Domain, String>)
        ensures
            r is Ok <==> domain_wf(parts.deep_view()),
            r matches Ok(d) ==> d@ == parts.deep_view() && d.wf(),
    {
        let n = parts.len();
        let mut i: usize = 0;
        let mut total: u32 = 0;
        while i < n
            invariant
                0 <= i <= n == parts@.len(),
                total == joined_len(parts.deep_view().take(i as int)),
                total <= 254,
                forall|j: int| 0 <= j < i ==> valid_label(#[trigger] parts.deep_view()[j]),
            decreases n - i,
        {
            let label = &parts[i];
            if !label_ok(label) {
                proof {
                    assert(parts.deep_view()[i as int] == parts@[i as int]@);
                    assert(!valid_label(parts.deep_view()[i as int]));
                }
                return Err("invalid domain label".to_owned());
            }
            proof {
                assert(parts.deep_view().take(i + 1).drop_last() =~= parts.deep_view().take(
                    i as int,
                ));
                assert(parts.deep_view().take(i + 1).last() == parts.deep_view()[i as int]);
            }
            let label_len = label.as_str().unicode_len();
            total = total + label_len as u32 + 1;
            if total > 254 {
                proof {
                    lemma_joined_len_monotone(parts.deep_view(), i + 1);
                }
                return Err("domain name too long".to_owned());
            }
            i += 1;
        }
        proof {
            assert(parts.deep_view().take(n as int) =~= parts.deep_view());
        }
        Ok(Domain { labels: parts })
    }

    /// The labels of the domain.
    pub fn parts(&self) -> (r: &Vec<String>)
        ensures
            r.deep_view() == self@,
    {
        &self.labels
    }

    /// Parse a dot-separated ASCII name into a domain.
    pub fn parse_str(s: &str) -> (r: Result<Domain, String>)
        ensures
            r is Ok <==> is_ascii_chars(s@) && domain_wf(split_dot(s@)),
            r matches Ok(d) ==> d@ == split_dot(s@) && d.wf(),
    {
        if !s.is_ascii() {
            return Err("domain is not ASCII".to_owned());
        }
        let len = s.unicode_len();
        let mut parts: Vec<String> = Vec::new();
        let mut start: usize = 0;
        let mut i: usize = 0;
        proof {
            assert(parts.deep_view() =~= Seq::<Seq<char>>::empty());
            assert(s@.skip(0) =~= s@);
            assert(parts.deep_view() + split_dot(s@) =~= split_dot(s@));
        }
        while i < len
            invariant
                0 <= start <= i <= len,
                len == s@.len(),
                vstd::string::is_ascii(s),
                forall|j: int| start <= j < i ==> s@[j] != '.',
                split_dot(s@) == parts.deep_view() + split_dot(s@.skip(start as int)),
            decreases len - i,
        {
            let c = s.get_char(i);
            if c == '.' {
                let label = s.substring_ascii(start, i).to_owned();
                let ghost old_dv = parts.deep_view();
                proof {
                    let a = s@.subrange(start as int, i as int);
                    let b = s@.skip(i as int + 1);
                    assert(s@.skip(start as int) =~= a + seq!['.'] + b);
                    lemma_split_dot_step(a, b);
                }
                parts.push(label);
                proof {
                    let a = s@.subrange(start as int, i as int);
                    let b = s@.skip(i as int + 1);
                    assert(parts.deep_view() =~= old_dv.push(label@));
                    assert(parts.deep_view() =~= old_dv + seq![a]);
                    assert(old_dv + (seq![a] + split_dot(b)) =~= (old_dv + seq![a]) + split_dot(
                        b,
                    ));
                }
                start = i + 1;
            }
            i += 1;
        }
        let label = s.substring_ascii(start, len).to_owned();
        let ghost old_dv = parts.deep_view();
        proof {
            let a = s@.subrange(start as int, len as int);
            assert(a =~= s@.skip(start as int));
            lemma_split_no_dot(a);
        }
        parts.push(label);
        proof {
            let a = s@.subrange(start as int, len as int);
            assert(parts.deep_view() =~= old_dv.push(label@));
            assert(parts.deep_view() =~= old_dv + seq![a]);
            assert(split_dot(s@) == parts.deep_view());
        }
        match Domain::from_parts(parts) {
            Ok(d) => Ok(d),
            Err(e) => Err(e),
        }
    }

    /// A domain with the same labels.
    pub fn duplicate(&self) -> (r: Domain)
        ensures
            r@ == self@,
    {
        let n = self.labels.len();
        let mut ls: Vec<String> = Vec::new();
        let mut i: usize = 0;
        while i < n
            invariant
                0 <= i <= n == self.labels@.len(),
                ls.deep_view() == self.labels.deep_view().take(i as int),
            decreases n - i,
        {
            let ghost old_dv = ls.deep_view();
            ls.push(self.labels[i].clone());
            proof {
                assert(ls.deep_view() =~= old_dv.push(self.labels@[i as int]@));
                assert(ls.deep_view() =~= self.labels.deep_view().take(i + 1));
            }
            i += 1;
        }
        proof {
            assert(self.labels.deep_view().take(n as int) =~= self.labels.deep_view());
        }
        Domain { labels: ls }
    }

    /// Whether this domain ends with the labels of `other`, compared
    /// case-insensitively.
    pub fn ends_with(&self, other: &Domain) -> (r: bool)
        requires
            self.wf(),
            other.wf(),
        ensures
            r == spec_ends_with(self@, other@),
    {
        let n = self.labels.len();
        let m = other.labels.len();
        if m > n {
            return false;
        }
        let off = n - m;
        let mut i: usize = 0;
        while i < m
            invariant
                0 <= i <= m <= n,
                off == n - m,
                n == self@.len(),
                m == other@.len(),
                self.wf(),
                other.wf(),
                forall|j: int|
                    0 <= j < i ==> seq_lower(self@[off + j]) == seq_lower(#[trigger] other@[j]),
            decreases m - i,
        {
            proof {
                lemma_valid_label_ascii(self@[off + i]);
                lemma_valid_label_ascii(other@[i as int]);
            }
            let a = lower_str(self.labels[off + i].as_str());
            let b = lower_str(other.labels[i].as_str());
            if !a.eq(&b) {
                return false;
            }
            i += 1;
        }
        true
    }
}

pub proof fn lemma_joined_len_nonneg(labels: Seq<Seq<char>>)
    ensures
        joined_len(labels) >= 0,
    decreases labels.len(),
{
    if labels.len() > 0 {
        lemma_joined_len_nonneg(labels.drop_last());
    }
}

pub proof fn lemma_joined_len_concat(x: Seq<Seq<char>>, y: Seq<Seq<char>>)
    ensures
        joined_len(x + y) == joined_len(x) + joined_len(y),
    decreases y.len(),
{
    if y.len() == 0 {
        assert(x + y =~= x);
    } else {
        lemma_joined_len_concat(x, y.drop_last());
        assert((x + y).drop_last() =~= x + y.drop_last());
        assert((x + y).last() == y.last());
    }
}

/// A contiguous slice of a name is no longer than the whole name.
pub proof fn lemma_joined_len_subrange(labels: Seq<Seq<char>>, a: int, b: int)
    requires
        0 <= a <= b <= labels.len(),
    ensures
        joined_len(labels.subrange(a, b)) <= joined_len(labels),
{
    let pre = labels.subrange(0, a);
    let mid = labels.subrange(a, b);
    let post = labels.subrange(b, labels.len() as int);
    assert(labels =~= (pre + mid) + post);
    lemma_joined_len_concat(pre + mid, post);
    lemma_joined_len_concat(pre, mid);
    lemma_joined_len_nonneg(pre);
    lemma_joined_len_nonneg(post);
}

proof fn lemma_joined_len_monotone(labels: Seq<Seq<char>>, upto: int)
    requires
        0 <= upto <= labels.len(),
    ensures
        joined_len(labels) >= joined_len(labels.take(upto)),
    decreases labels.len() - upto,
{
    if upto < labels.len() {
        lemma_joined_len_monotone(labels, upto + 1);
        assert(labels.take(upto + 1).drop_last() =~= labels.take(upto));
        assert(joined_len(labels.take(upto + 1)) == joined_len(labels.take(upto)) + labels[upto].len() + 1);
    } else {
        assert(labels.take(upto) =~= labels);
    }
}

/// Whether one label is valid.
fn label_ok(s: &String) -> (b: bool)
    ensures
        b == valid_label(s@),
{
    let len = s.as_str().unicode_len();
    if len < 1 || len > 63 {
        return false;
    }
    let mut i: usize = 0;
    while i < len
        invariant
            0 <= i <= len,
            len == s@.len(),
            1 <= len <= 63,
            forall|j: int| 0 <= j < i ==> valid_label_char(#[trigger] s@[j]),
        decreases len - i,
    {
        let c = s.as_str().get_char(i);
        let v = c as u32;
        if !((97 <= v && v <= 122) || (65 <= v && v <= 90) || (48 <= v && v <= 57) || v == 45) {
            assert(!valid_label_char(s@[i as int]));
            return false;
        }
        assert(valid_label_char(s@[i as int]));
        i += 1;
    }
    true
}

} // verus!
