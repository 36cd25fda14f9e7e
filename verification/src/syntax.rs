use vstd::prelude::*;

use crate::changeset::ChangeSet;
use crate::ops::copy_chars;

verus! {

/// One language's entry in the registry: its scope identifier (usually
/// `source.<lang>`) and the file-name suffixes it claims.
pub struct LanguageConfiguration {
    pub scope: String,
    pub file_types: Vec<String>,
}

impl LanguageConfiguration {
    /// The language's scope identifier.
    pub fn scope(&self) -> (r: &String)
        ensures
            r@ == self.scope@,
    {
        &self.scope
    }
}

/// The language-configuration registry, an explicit instance handed to the
/// document rather than ambient state.
pub struct Loader {
    pub configs: Vec<LanguageConfiguration>,
}

impl Loader {
    pub fn new(configs: Vec<LanguageConfiguration>) -> (r: Loader)
        ensures
            r.configs == configs,
    {
        Loader { configs }
    }

    /// Whether some entry carries this scope.
    pub open spec fn has_scope(&self, scope: Seq<char>) -> bool {
        exists|i: int| 0 <= i < self.configs@.len() && #[trigger] self.configs@[i].scope@ == scope
    }

    /// The first configuration whose scope is `scope`, if any.
    pub fn language_config_for_scope(&self, scope: &String) -> (r: Option<
        &LanguageConfiguration,
    >)
        ensures
            r is Some <==> self.has_scope(scope@),
            r is Some ==> r.unwrap().scope@ == scope@,
    {
        let mut i: usize = 0;
        while i < self.configs.len()
            invariant
                i <= self.configs@.len(),
                forall|k: int| 0 <= k < i ==> #[trigger] self.configs@[k].scope@ != scope@,
            decreases self.configs@.len() - i,
        {
            if self.configs[i].scope == *scope {
                return Some(&self.configs[i]);
            }
            i += 1;
        }
        None
    }

    /// Whether some entry claims a file type that `file_name` ends with.
    pub open spec fn has_file_type(&self, file_name: Seq<char>) -> bool {
        exists|i: int|
            0 <= i < self.configs@.len() && config_matches(
                #[trigger] self.configs@[i],
                file_name,
            )
    }

    /// The first configuration one of whose file types ends `file_name`.
    pub fn language_config_for_file_name(&self, file_name: &String) -> (r: Option<
        &LanguageConfiguration,
    >)
        ensures
            r is Some <==> self.has_file_type(file_name@),
            r is Some ==> config_matches(*r.unwrap(), file_name@),
    {
        let mut i: usize = 0;
        while i < self.configs.len()
            invariant
                i <= self.configs@.len(),
                forall|k: int|
                    0 <= k < i ==> !config_matches(#[trigger] self.configs@[k], file_name@),
            decreases self.configs@.len() - i,
        {
            let c = &self.configs[i];
            let mut j: usize = 0;
            while j < c.file_types.len()
                invariant
                    j <= c.file_types@.len(),
                    c == self.configs@[i as int],
                    i < self.configs@.len(),
                    forall|x: int|
                        0 <= x < j ==> !is_suffix(#[trigger] c.file_types@[x]@, file_name@),
                decreases c.file_types@.len() - j,
            {
                if ends_with(file_name, &c.file_types[j]) {
                    proof {
                        assert(is_suffix(c.file_types@[j as int]@, file_name@));
                        assert(config_matches(self.configs@[i as int], file_name@));
                    }
                    return Some(&self.configs[i]);
                }
                j += 1;
            }
            proof {
                assert forall|x: int| 0 <= x < c.file_types@.len() implies !is_suffix(
                    #[trigger] c.file_types@[x]@,
                    file_name@,
                ) by {}
                assert(!config_matches(self.configs@[i as int], file_name@));
            }
            i += 1;
        }
        None
    }
}

/// Whether one of the configuration's file types is a suffix of the name.
pub open spec fn config_matches(c: LanguageConfiguration, file_name: Seq<char>) -> bool {
    exists|j: int|
        0 <= j < c.file_types@.len() && is_suffix(#[trigger] c.file_types@[j]@, file_name)
}

/// Whether `suffix` is a suffix of `s`.
pub open spec fn is_suffix(suffix: Seq<char>, s: Seq<char>) -> bool {
    suffix.len() <= s.len() && s.skip(s.len() - suffix.len()) == suffix
}

/// Whether the string `s` ends with `suffix`.
pub fn ends_with(s: &String, suffix: &String) -> (r: bool)
    ensures
        r == is_suffix(suffix@, s@),
{
    let sv: Vec<char> = string_chars(s);
    let fv: Vec<char> = string_chars(suffix);
    if fv.len() > sv.len() {
        return false;
    }
    let off: usize = sv.len() - fv.len();
    let sl: usize = sv.len();
    let mut k: usize = 0;
    while k < fv.len()
        invariant
            sl == sv@.len(),
            k <= fv@.len() <= sv@.len(),
            off == sv@.len() - fv@.len(),
            sv@ == s@,
            fv@ == suffix@,
            forall|x: int| 0 <= x < k ==> s@[off + x] == suffix@[x],
        decreases fv@.len() - k,
    {
        proof {
            assert(off + k < sv@.len());
        }
        if sv[off + k] != fv[k] {
            proof {
                assert(s@.skip(s@.len() - suffix@.len())[k as int] == s@[off + k]);
            }
            return false;
        }
        k += 1;
    }
    proof {
        assert(s@.skip(s@.len() - suffix@.len()) =~= suffix@);
    }
    true
}

/// The characters of a string, in order.
///
/// Relies on str::chars, which yields exactly the characters the string's
/// abstract view holds.
#[verifier::external_body]
pub fn string_chars(s: &String) -> (r: Vec<char>)
    ensures
        r@ == s@,
{
    s.chars().collect()
}

/// Why a synchronization step was refused.
#[derive(Copy, Clone, PartialEq, Eq, Structural, Debug)]
pub enum SyntaxError {
    /// The tree was already invalid; a full rebuild is needed first.
    Stale,
    /// The change-set does not fit the text the tree reflects.
    LengthMismatch,
}

/// The derived parse state for the active language. The tree is modeled by
/// the text it reflects together with a validity flag: a tree is trusted
/// exactly while every edit since the last full rebuild was applied to it
/// in order.
pub struct Syntax {
    /// The text the tree currently reflects.
    pub text: Vec<char>,
    /// Whether the tree may be trusted; cleared by a failed update.
    pub valid: bool,
}

impl Syntax {
    /// A full build from the complete current text.
    pub fn new(doc: &Vec<char>) -> (r: Syntax)
        ensures
            r.text@ == doc@,
            r.valid,
    {
        Syntax { text: copy_chars(doc), valid: true }
    }

    /// Bring the tree from the text it reflects to `new_text`, following
    /// `changes`. Fails, invalidating nothing further, when the tree is
    /// already stale; fails and invalidates the tree when the change-set
    /// does not fit the reflected text.
    pub fn update(&mut self, new_text: &Vec<char>, changes: &ChangeSet) -> (r: Result<
        (),
        SyntaxError,
    >)
        requires
            changes.wf(),
        ensures
            r is Ok <==> (old(self).valid && changes.len == old(self).text@.len()),
            r is Ok ==> final(self).text@ == new_text@ && final(self).valid,
            r == Result::<(), SyntaxError>::Err(SyntaxError::Stale) <==> !old(self).valid,
            r == Result::<(), SyntaxError>::Err(SyntaxError::LengthMismatch) <==> (old(
                self,
            ).valid && changes.len != old(self).text@.len()),
            r is Err ==> !final(self).valid && final(self).text@ == old(self).text@,
    {
        if !self.valid {
            return Err(SyntaxError::Stale);
        }
        if changes.len != self.text.len() {
            self.valid = false;
            return Err(SyntaxError::LengthMismatch);
        }
        self.text = copy_chars(new_text);
        Ok(())
    }
}

} // verus!
