//! The rules by which a run of declaration specifiers becomes one storage
//! class, one set of qualifiers and one type.
//!
//! The first time a keyword occurs it is combined with what the earlier
//! keywords established; a keyword that occurs again is a repetition, which
//! is harmless for a storage class, a qualifier, a sign and `long`, and an
//! error for any other base type.

use crate::data::{BaseType, Keyword, Locatable, Location, Qualifiers, SpecType, StorageClass};
use crate::message::{
    both_signs, both_signs_text, cannot_combine, cannot_combine_modifier,
    cannot_combine_modifier_text, cannot_combine_text, duplicate_basic_type_text,
    invalid_modifier, invalid_modifier_text, multiple_storage_classes,
    multiple_storage_classes_text,
};
use vstd::prelude::*;

verus! {

/// What the specifiers read so far have established, and the errors among
/// them, in the order in which they were found.
pub struct Specifiers {
    pub storage_class: Option<StorageClass>,
    pub qualifiers: Qualifiers,
    pub ctype: Option<BaseType>,
    pub signed: Option<bool>,
    pub errors: Vec<Locatable<String>>,
}

/// The model of [`Specifiers`].
pub struct SpecSpecifiers {
    pub storage_class: Option<StorageClass>,
    pub qualifiers: Qualifiers,
    pub ctype: Option<BaseType>,
    pub signed: Option<bool>,
    pub errors: Seq<Locatable<Seq<char>>>,
}

/// The models of a list of located messages, in order.
pub open spec fn messages_view(messages: Seq<Locatable<String>>) -> Seq<Locatable<Seq<char>>> {
    messages.map_values(|message: Locatable<String>| message@)
}

impl View for Specifiers {
    type V = SpecSpecifiers;

    open spec fn view(&self) -> SpecSpecifiers {
        SpecSpecifiers {
            storage_class: self.storage_class,
            qualifiers: self.qualifiers,
            ctype: self.ctype,
            signed: self.signed,
            errors: messages_view(self.errors@),
        }
    }
}

/// The spelling of a sign.
pub open spec fn sign_text(signed: bool) -> Seq<char> {
    if signed {
        "signed"@
    } else {
        "unsigned"@
    }
}

impl SpecSpecifiers {
    /// What the first keyword of a declaration establishes by itself.
    pub open spec fn initial(start: Keyword) -> SpecSpecifiers {
        SpecSpecifiers {
            storage_class: match StorageClass::spec_try_from(start) {
                Ok(class) => Some(class),
                Err(_) => None,
            },
            qualifiers: Qualifiers {
                c_const: start == Keyword::Const,
                volatile: start == Keyword::Volatile,
            },
            ctype: match BaseType::spec_try_from(start) {
                Ok(base) => Some(base),
                Err(_) => None,
            },
            signed: if start == Keyword::Signed {
                Some(true)
            } else if start == Keyword::Unsigned {
                Some(false)
            } else {
                None
            },
            errors: Seq::empty(),
        }
    }

    /// These specifiers with one more error.
    pub open spec fn fail(self, message: Seq<char>, location: Location) -> SpecSpecifiers {
        SpecSpecifiers { errors: self.errors.push(Locatable { data: message, location }), ..self }
    }

    /// These specifiers with another base type.
    pub open spec fn with_ctype(self, base: BaseType) -> SpecSpecifiers {
        SpecSpecifiers { ctype: Some(base), ..self }
    }

    /// A sign, met for the first time: an error beside `float` or `double`,
    /// and an error beside the other sign.
    pub open spec fn combine_sign(self, keyword: Keyword, location: Location) -> SpecSpecifiers {
        let checked = if self.ctype == Some(BaseType::Float) || self.ctype == Some(
            BaseType::Double,
        ) {
            self.fail(
                invalid_modifier_text(keyword.spec_text(), self.ctype->0.spec_text()),
                location,
            )
        } else {
            self
        };
        if checked.signed is None {
            SpecSpecifiers { signed: Some(keyword == Keyword::Signed), ..checked }
        } else {
            checked.fail(both_signs_text(), location)
        }
    }

    /// A storage class, met for the first time: an error beside another one.
    pub open spec fn combine_storage_class(
        self,
        class: StorageClass,
        location: Location,
    ) -> SpecSpecifiers {
        match self.storage_class {
            None => SpecSpecifiers { storage_class: Some(class), ..self },
            Some(present) => self.fail(multiple_storage_classes_text(present, class), location),
        }
    }

    /// `float` or `double`, met for the first time: an error after a sign,
    /// and an error after any base type but `long` before `double`.
    pub open spec fn combine_floating(
        self,
        keyword: Keyword,
        base: BaseType,
        location: Location,
    ) -> SpecSpecifiers {
        match self.signed {
            Some(signed) => self.fail(
                invalid_modifier_text(sign_text(signed), keyword.spec_text()),
                location,
            ),
            None => {
                let checked = match self.ctype {
                    None => self,
                    Some(present) => if present == BaseType::Long && keyword == Keyword::Double {
                        self
                    } else {
                        self.fail(
                            cannot_combine_text(keyword.spec_text(), present.spec_text()),
                            location,
                        )
                    },
                };
                checked.with_ctype(base)
            },
        }
    }

    /// `void`, met for the first time: an error after any base type.
    pub open spec fn combine_void(self, location: Location) -> SpecSpecifiers {
        match self.ctype {
            None => self.with_ctype(BaseType::Void),
            Some(present) => self.fail(
                cannot_combine_text("void"@, present.spec_text()),
                location,
            ),
        }
    }

    /// `int`, met for the first time: nothing new beside `char`, `short`,
    /// `long` or `int`, an error beside any other base type.
    pub open spec fn combine_int(self, location: Location) -> SpecSpecifiers {
        match self.ctype {
            None => self.with_ctype(BaseType::Int),
            Some(present) => if present.spec_is_integer() {
                self
            } else {
                self.fail(cannot_combine_text("int"@, present.spec_text()), location)
            },
        }
    }

    /// `char`, `short`, `long` or `_Bool`, met for the first time: it takes
    /// the place of no base type or of `int`, and is an error after any other.
    pub open spec fn combine_refinement(
        self,
        keyword: Keyword,
        base: BaseType,
        location: Location,
    ) -> SpecSpecifiers {
        match self.ctype {
            None => self.with_ctype(base),
            Some(present) => if present == BaseType::Int {
                self.with_ctype(base)
            } else {
                self.fail(cannot_combine_modifier_text(keyword, present), location)
            },
        }
    }

    /// These specifiers after a keyword that has not occurred before.
    pub open spec fn combine(self, keyword: Keyword, location: Location) -> SpecSpecifiers {
        if keyword == Keyword::Const {
            SpecSpecifiers { qualifiers: Qualifiers { c_const: true, ..self.qualifiers }, ..self }
        } else if keyword == Keyword::Volatile {
            SpecSpecifiers { qualifiers: Qualifiers { volatile: true, ..self.qualifiers }, ..self }
        } else if keyword == Keyword::Signed || keyword == Keyword::Unsigned {
            self.combine_sign(keyword, location)
        } else if let Ok(class) = StorageClass::spec_try_from(keyword) {
            self.combine_storage_class(class, location)
        } else if let Ok(base) = BaseType::spec_try_from(keyword) {
            if keyword == Keyword::Float || keyword == Keyword::Double {
                self.combine_floating(keyword, base, location)
            } else if keyword == Keyword::Void {
                self.combine_void(location)
            } else if keyword == Keyword::Int {
                self.combine_int(location)
            } else {
                self.combine_refinement(keyword, base, location)
            }
        } else {
            self
        }
    }

    /// Whether a keyword may be repeated at the price of a warning.
    pub open spec fn repeatable(keyword: Keyword) -> bool {
        ||| keyword.spec_is_qualifier()
        ||| keyword.spec_is_storage_class()
        ||| keyword == Keyword::Signed
        ||| keyword == Keyword::Unsigned
    }

    /// These specifiers after a keyword that has occurred before: nothing
    /// changes, but a base type other than `long` is an error.
    pub open spec fn repeat(self, keyword: Keyword, location: Location) -> SpecSpecifiers {
        if Self::repeatable(keyword) || keyword == Keyword::Long {
            self
        } else {
            self.fail(duplicate_basic_type_text(keyword), location)
        }
    }

    /// The sign that the integer types get: signed unless `unsigned` was
    /// written.
    pub open spec fn sign(self) -> bool {
        match self.signed {
            Some(signed) => signed,
            None => true,
        }
    }

    /// The type these specifiers name: `int` where no base type was written.
    pub open spec fn resolved_type(self) -> SpecType {
        match self.ctype {
            Some(base) => base.spec_with_sign(self.sign()),
            None => SpecType::Int(self.sign()),
        }
    }

    /// The storage class these specifiers name: `auto` where none was
    /// written.
    pub open spec fn resolved_storage_class(self) -> StorageClass {
        match self.storage_class {
            Some(class) => class,
            None => StorageClass::Auto,
        }
    }

    /// The storage class, qualifiers and type these specifiers name.
    pub open spec fn outcome(self) -> (StorageClass, Qualifiers, SpecType) {
        (self.resolved_storage_class(), self.qualifiers, self.resolved_type())
    }
}

/// Adds an error to the list.
pub fn fail(errors: &mut Vec<Locatable<String>>, message: String, location: Location)
    ensures
        messages_view(final(errors)@) == messages_view(old(errors)@).push(
            Locatable { data: message@, location },
        ),
{
    errors.push(Locatable { data: message, location });
    assert(messages_view(errors@) =~= messages_view(old(errors)@).push(
        Locatable { data: message@, location },
    ));
}

/// Combines a keyword that has not occurred before in this declaration with
/// what the earlier ones established.
#[verifier::rlimit(40)]
pub fn declaration_specifier(keyword: Keyword, specifiers: &mut Specifiers, location: Location)
    requires
        keyword.spec_is_decl_specifier(),
    ensures
        final(specifiers)@ == old(specifiers)@.combine(keyword, location),
{
    if keyword == Keyword::Const {
        specifiers.qualifiers.c_const = true;
    } else if keyword == Keyword::Volatile {
        specifiers.qualifiers.volatile = true;
    } else if keyword == Keyword::Signed || keyword == Keyword::Unsigned {
        match specifiers.ctype {
            Some(BaseType::Float) | Some(BaseType::Double) => {
                let present = specifiers.ctype.unwrap();
                fail(
                    &mut specifiers.errors,
                    invalid_modifier(keyword.text(), present.text()),
                    location,
                );
            },
            _ => {},
        }
        if specifiers.signed.is_none() {
            specifiers.signed = Some(keyword == Keyword::Signed);
        } else {
            fail(&mut specifiers.errors, both_signs(), location);
        }
    } else if let Ok(class) = StorageClass::try_from(keyword) {
        match specifiers.storage_class {
            None => {
                specifiers.storage_class = Some(class);
            },
            Some(present) => {
                fail(&mut specifiers.errors, multiple_storage_classes(present, class), location);
            },
        }
    } else if keyword == Keyword::Float || keyword == Keyword::Double {
        let base = if keyword == Keyword::Float {
            BaseType::Float
        } else {
            BaseType::Double
        };
        match specifiers.signed {
            Some(signed) => {
                let sign = if signed {
                    "signed"
                } else {
                    "unsigned"
                };
                fail(&mut specifiers.errors, invalid_modifier(sign, keyword.text()), location);
            },
            None => {
                match specifiers.ctype {
                    None => {},
                    Some(present) => {
                        if !(present == BaseType::Long && keyword == Keyword::Double) {
                            fail(
                                &mut specifiers.errors,
                                cannot_combine(keyword.text(), present.text()),
                                location,
                            );
                        }
                    },
                }
                specifiers.ctype = Some(base);
            },
        }
    } else if keyword == Keyword::Void {
        match specifiers.ctype {
            Some(present) => {
                fail(&mut specifiers.errors, cannot_combine("void", present.text()), location);
            },
            None => {
                specifiers.ctype = Some(BaseType::Void);
            },
        }
    } else if keyword == Keyword::Int {
        match specifiers.ctype {
            Some(BaseType::Char) | Some(BaseType::Short) | Some(BaseType::Long) | Some(
                BaseType::Int,
            ) => {},
            Some(present) => {
                fail(&mut specifiers.errors, cannot_combine("int", present.text()), location);
            },
            None => {
                specifiers.ctype = Some(BaseType::Int);
            },
        }
    } else {
        match BaseType::try_from(keyword) {
            Ok(base) => {
                match specifiers.ctype {
                    None | Some(BaseType::Int) => {
                        specifiers.ctype = Some(base);
                    },
                    Some(present) => {
                        fail(
                            &mut specifiers.errors,
                            cannot_combine_modifier(keyword, present),
                            location,
                        );
                    },
                }
            },
            Err(_) => {},
        }
    }
}

/// Whether a keyword is among those seen.
pub fn seen_before(seen: &Vec<Keyword>, keyword: Keyword) -> (yes: bool)
    ensures
        yes == seen@.to_set().contains(keyword),
{
    let mut i: usize = 0;
    while i < seen.len()
        invariant
            i <= seen.len(),
            forall|j: int| 0 <= j < i ==> seen@[j] != keyword,
        decreases seen.len() - i,
    {
        if seen[i] == keyword {
            assert(seen@.contains(keyword));
            return true;
        }
        i += 1;
    }
    false
}

} // verus!
