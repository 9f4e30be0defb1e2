//! Registers for yank, delete and paste: named registers `a` to `z`
//! (uppercase appends), the unnamed default, the last-yank register `0`,
//! and the small-delete register `-`.

use std::collections::HashMap;

use vstd::prelude::*;

verus! {

broadcast use vstd::std_specs::hash::group_hash_axioms;

/// The slot a named register letter selects: lowercase and uppercase pick
/// the same slot, keyed by the lowercase code point.
pub open spec fn reg_key(c: char) -> u32 {
    if 'A' <= c <= 'Z' {
        (c as u32 + 32) as u32
    } else {
        c as u32
    }
}

pub open spec fn is_letter_register(c: char) -> bool {
    ('a' <= c <= 'z') || ('A' <= c <= 'Z')
}

pub struct RegisterMap {
    registers: HashMap<u32, String>,
    unnamed: String,
    last_yank: String,
    small_delete: String,
}

impl RegisterMap {
    pub closed spec fn named(&self) -> Map<u32, String> {
        self.registers@
    }

    pub closed spec fn spec_unnamed(&self) -> Seq<char> {
        self.unnamed@
    }

    pub closed spec fn spec_last_yank(&self) -> Seq<char> {
        self.last_yank@
    }

    pub closed spec fn spec_small_delete(&self) -> Seq<char> {
        self.small_delete@
    }

    pub fn new() -> (r: RegisterMap)
        ensures
            r.named() =~= Map::<u32, String>::empty(),
            r.spec_unnamed() == Seq::<char>::empty(),
            r.spec_last_yank() == Seq::<char>::empty(),
            r.spec_small_delete() == Seq::<char>::empty(),
    {
        RegisterMap {
            registers: HashMap::new(),
            unnamed: String::new(),
            last_yank: String::new(),
            small_delete: String::new(),
        }
    }

    /// Store `text`. A letter register takes it (uppercase appends to the
    /// lowercase slot), anything else fills the unnamed register. A yank
    /// also lands in the last-yank register; a delete without a newline
    /// also lands in the small-delete register.
    pub fn set(&mut self, register: Option<char>, text: String, is_yank: bool)
        ensures
            match register {
                Some(reg) => if is_letter_register(reg) {
                    &&& final(self).named().contains_key(reg_key(reg))
                    &&& final(self).named()[reg_key(reg)]@ == if 'A' <= reg <= 'Z' {
                        (if old(self).named().contains_key(reg_key(reg)) {
                            old(self).named()[reg_key(reg)]@
                        } else {
                            Seq::<char>::empty()
                        }) + text@
                    } else {
                        text@
                    }
                    &&& final(self).spec_unnamed() == old(self).spec_unnamed()
                } else {
                    final(self).spec_unnamed() == text@ && final(self).named() == old(self).named()
                },
                None => final(self).spec_unnamed() == text@ && final(self).named() == old(
                    self,
                ).named(),
            },
            final(self).spec_last_yank() == if is_yank {
                text@
            } else {
                old(self).spec_last_yank()
            },
            final(self).spec_small_delete() == if !is_yank && !text@.contains('\n') {
                text@
            } else {
                old(self).spec_small_delete()
            },
    {
        match register {
            Some(reg) if (reg >= 'a' && reg <= 'z') || (reg >= 'A' && reg <= 'Z') => {
                if reg >= 'A' && reg <= 'Z' {
                    let lower = (reg as u32) + 32;
                    let existing = match self.registers.get(&lower) {
                        Some(s) => s.clone(),
                        None => String::new(),
                    };
                    let mut appended = existing;
                    appended.append(text.as_str());
                    self.registers.insert(lower, appended);
                } else {
                    self.registers.insert(reg as u32, text.clone());
                }
            },
            _ => {
                self.unnamed = text.clone();
            },
        }
        if is_yank {
            self.last_yank = text.clone();
        }
        if !is_yank && !contains_newline(&text) {
            self.small_delete = text;
        }
    }

    /// Read a register: `0` is the last yank, `-` the small delete, a
    /// letter its slot (absent slots give `None`), anything else the
    /// unnamed register.
    pub fn get(&self, register: Option<char>) -> (r: Option<String>)
        ensures
            match register {
                Some(c) => if c == '0' {
                    r is Some && r->0@ == self.spec_last_yank()
                } else if c == '-' {
                    r is Some && r->0@ == self.spec_small_delete()
                } else if is_letter_register(c) {
                    match r {
                        Some(s) => self.named().contains_key(reg_key(c)) && s@ == self.named()[
                            reg_key(c)
                        ]@,
                        None => !self.named().contains_key(reg_key(c)),
                    }
                } else {
                    r is Some && r->0@ == self.spec_unnamed()
                },
                None => r is Some && r->0@ == self.spec_unnamed(),
            },
    {
        match register {
            Some(c) => {
                if c == '0' {
                    Some(self.last_yank.clone())
                } else if c == '-' {
                    Some(self.small_delete.clone())
                } else if (c >= 'a' && c <= 'z') || (c >= 'A' && c <= 'Z') {
                    let lower = if c >= 'A' && c <= 'Z' {
                        (c as u32) + 32
                    } else {
                        c as u32
                    };
                    match self.registers.get(&lower) {
                        Some(s) => Some(s.clone()),
                        None => None,
                    }
                } else {
                    Some(self.unnamed.clone())
                }
            },
            None => Some(self.unnamed.clone()),
        }
    }

    /// The unnamed register's text.
    pub fn get_unnamed(&self) -> (r: String)
        ensures
            r@ == self.spec_unnamed(),
    {
        self.unnamed.clone()
    }
}

/// Whether the text holds a newline character.
fn contains_newline(s: &String) -> (r: bool)
    ensures
        r == s@.contains('\n'),
{
    let n = s.as_str().unicode_len();
    let mut i: usize = 0;
    while i < n
        invariant
            i <= n == s@.len(),
            forall|k: int| 0 <= k < i ==> s@[k] != '\n',
        decreases n - i,
    {
        if s.as_str().get_char(i) == '\n' {
            proof {
                assert(s@[i as int] == '\n');
            }
            return true;
        }
        i = i + 1;
    }
    proof {
        if s@.contains('\n') {
            let k = choose|k: int| 0 <= k < s@.len() && s@[k] == '\n';
            assert(false);
        }
    }
    false
}


impl Default for RegisterMap {
    /// Empty registers, as `new` builds them.
    fn default() -> (r: RegisterMap)
        ensures
            r.named() =~= Map::<u32, String>::empty(),
            r.spec_unnamed() == Seq::<char>::empty(),
    {
        RegisterMap::new()
    }
}

} // verus!
