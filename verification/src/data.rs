//! The vocabulary of the parser: locations, tokens, keywords, types, symbols
//! and statements, each with the mathematical model that contracts speak of.

use vstd::prelude::*;

verus! {

/// A position in the source text.
#[derive(Clone, Copy, Debug, PartialEq, Eq, Structural)]
pub struct Location {
    pub line: u32,
    pub column: u32,
}

/// A value together with the place in the source it belongs to.
#[derive(Debug, PartialEq)]
pub struct Locatable<T> {
    pub data: T,
    pub location: Location,
}

impl<T: Clone> Clone for Locatable<T> {
    fn clone(&self) -> (copy: Locatable<T>)
        ensures
            copy.location == self.location,
            cloned(self.data, copy.data),
    {
        Locatable { data: self.data.clone(), location: self.location }
    }
}

impl<T: View> View for Locatable<T> {
    type V = Locatable<T::V>;

    open spec fn view(&self) -> Locatable<T::V> {
        Locatable { data: self.data@, location: self.location }
    }
}

/// The keywords of C.
#[derive(Clone, Copy, Debug, PartialEq, Eq, Hash, Structural)]
pub enum Keyword {
    If,
    Else,
    Do,
    While,
    For,
    Switch,
    Case,
    Default,
    Break,
    Continue,
    Return,
    Goto,
    Bool,
    Char,
    Short,
    Int,
    Long,
    Float,
    Double,
    Void,
    Signed,
    Unsigned,
    Typedef,
    Union,
    Struct,
    Enum,
    Const,
    Volatile,
    Auto,
    Register,
    Static,
    Extern,
    Sizeof,
}

/// The `const` and `volatile` flags of a declaration or of a pointer.
#[derive(Clone, Copy, Debug, PartialEq, Eq, Structural)]
pub struct Qualifiers {
    pub c_const: bool,
    pub volatile: bool,
}

impl Default for Qualifiers {
    fn default() -> (q: Qualifiers)
        ensures
            q == (Qualifiers { c_const: false, volatile: false }),
    {
        Qualifiers { c_const: false, volatile: false }
    }
}

/// Where and for how long a declared name is stored.
#[derive(Clone, Copy, Debug, PartialEq, Eq, Structural)]
pub enum StorageClass {
    Auto,
    Extern,
    Static,
    Register,
}

impl Default for StorageClass {
    fn default() -> (s: StorageClass)
        ensures
            s == StorageClass::Auto,
    {
        StorageClass::Auto
    }
}

/// The arithmetic and `void` types that a specifier keyword can name, before
/// signedness is decided.
#[derive(Clone, Copy, Debug, PartialEq, Eq, Structural)]
pub enum BaseType {
    Void,
    Bool,
    Char,
    Short,
    Int,
    Long,
    Float,
    Double,
}

impl Keyword {
    /// Whether this keyword is `const` or `volatile`.
    pub open spec fn spec_is_qualifier(self) -> bool {
        self == Keyword::Const || self == Keyword::Volatile
    }

    /// Whether this keyword is `const` or `volatile`.
    #[verifier::when_used_as_spec(spec_is_qualifier)]
    pub fn is_qualifier(self) -> (yes: bool)
        ensures
            yes == self.spec_is_qualifier(),
    {
        self == Keyword::Const || self == Keyword::Volatile
    }

    /// Whether this keyword names a storage class.
    pub open spec fn spec_is_storage_class(self) -> bool {
        StorageClass::spec_try_from(self) is Ok
    }

    /// Whether this keyword names a storage class.
    #[verifier::when_used_as_spec(spec_is_storage_class)]
    pub fn is_storage_class(self) -> (yes: bool)
        ensures
            yes == self.spec_is_storage_class(),
    {
        StorageClass::try_from(self).is_ok()
    }

    /// Whether this keyword may stand among the specifiers of a declaration:
    /// a storage class, a qualifier, a sign or a base type.
    pub open spec fn spec_is_decl_specifier(self) -> bool {
        ||| self.spec_is_storage_class()
        ||| self.spec_is_qualifier()
        ||| self == Keyword::Signed
        ||| self == Keyword::Unsigned
        ||| BaseType::spec_try_from(self) is Ok
    }

    /// Whether this keyword may stand among the specifiers of a declaration.
    #[verifier::when_used_as_spec(spec_is_decl_specifier)]
    pub fn is_decl_specifier(self) -> (yes: bool)
        ensures
            yes == self.spec_is_decl_specifier(),
    {
        match self {
            Keyword::Unsigned
            | Keyword::Signed
            | Keyword::Void
            | Keyword::Bool
            | Keyword::Char
            | Keyword::Short
            | Keyword::Int
            | Keyword::Long
            | Keyword::Float
            | Keyword::Double
            | Keyword::Extern
            | Keyword::Static
            | Keyword::Auto
            | Keyword::Register
            | Keyword::Const
            | Keyword::Volatile => true,
            _ => false,
        }
    }
}

impl StorageClass {
    /// The storage class that a keyword names, if it names one.
    pub open spec fn spec_try_from(keyword: Keyword) -> Result<StorageClass, ()> {
        match keyword {
            Keyword::Auto => Ok(StorageClass::Auto),
            Keyword::Extern => Ok(StorageClass::Extern),
            Keyword::Static => Ok(StorageClass::Static),
            Keyword::Register => Ok(StorageClass::Register),
            _ => Err(()),
        }
    }

    /// The storage class that a keyword names, if it names one.
    #[verifier::when_used_as_spec(spec_try_from)]
    pub fn try_from(keyword: Keyword) -> (class: Result<StorageClass, ()>)
        ensures
            class == StorageClass::spec_try_from(keyword),
    {
        match keyword {
            Keyword::Auto => Ok(StorageClass::Auto),
            Keyword::Extern => Ok(StorageClass::Extern),
            Keyword::Static => Ok(StorageClass::Static),
            Keyword::Register => Ok(StorageClass::Register),
            _ => Err(()),
        }
    }
}

impl BaseType {
    /// The base type that a keyword names, if it names one.
    pub open spec fn spec_try_from(keyword: Keyword) -> Result<BaseType, ()> {
        match keyword {
            Keyword::Void => Ok(BaseType::Void),
            Keyword::Bool => Ok(BaseType::Bool),
            Keyword::Char => Ok(BaseType::Char),
            Keyword::Short => Ok(BaseType::Short),
            Keyword::Int => Ok(BaseType::Int),
            Keyword::Long => Ok(BaseType::Long),
            Keyword::Float => Ok(BaseType::Float),
            Keyword::Double => Ok(BaseType::Double),
            _ => Err(()),
        }
    }

    /// The base type that a keyword names, if it names one.
    #[verifier::when_used_as_spec(spec_try_from)]
    pub fn try_from(keyword: Keyword) -> (base: Result<BaseType, ()>)
        ensures
            base == BaseType::spec_try_from(keyword),
    {
        match keyword {
            Keyword::Void => Ok(BaseType::Void),
            Keyword::Bool => Ok(BaseType::Bool),
            Keyword::Char => Ok(BaseType::Char),
            Keyword::Short => Ok(BaseType::Short),
            Keyword::Int => Ok(BaseType::Int),
            Keyword::Long => Ok(BaseType::Long),
            Keyword::Float => Ok(BaseType::Float),
            Keyword::Double => Ok(BaseType::Double),
            _ => Err(()),
        }
    }

    /// Whether signedness applies: `char`, `short`, `int` and `long`.
    pub open spec fn spec_is_integer(self) -> bool {
        self == BaseType::Char || self == BaseType::Short || self == BaseType::Int || self
            == BaseType::Long
    }

    /// The type this base stands for, with the given signedness baked into
    /// the four integer types.
    pub open spec fn spec_with_sign(self, signed: bool) -> SpecType {
        match self {
            BaseType::Void => SpecType::Void,
            BaseType::Bool => SpecType::Bool,
            BaseType::Char => SpecType::Char(signed),
            BaseType::Short => SpecType::Short(signed),
            BaseType::Int => SpecType::Int(signed),
            BaseType::Long => SpecType::Long(signed),
            BaseType::Float => SpecType::Float,
            BaseType::Double => SpecType::Double,
        }
    }

    /// The type this base stands for, with the given signedness baked into
    /// the four integer types.
    pub fn with_sign(self, signed: bool) -> (ctype: Type)
        ensures
            ctype@ == self.spec_with_sign(signed),
    {
        match self {
            BaseType::Void => Type::Void,
            BaseType::Bool => Type::Bool,
            BaseType::Char => Type::Char(signed),
            BaseType::Short => Type::Short(signed),
            BaseType::Int => Type::Int(signed),
            BaseType::Long => Type::Long(signed),
            BaseType::Float => Type::Float,
            BaseType::Double => Type::Double,
        }
    }
}

/// A lexical token.
#[derive(Debug)]
pub enum Token {
    Keyword(Keyword),
    Id(String),
    Int(i64),
    LeftBrace,
    RightBrace,
    LeftBracket,
    RightBracket,
    LeftParen,
    RightParen,
    Semicolon,
    Colon,
    Comma,
    Dot,
    Question,
    Star,
    Plus,
    Minus,
    Divide,
    Equal,
    Ampersand,
    Ellipsis,
}

/// The model of a [`Token`]: an identifier is the sequence of its characters.
pub enum SpecToken {
    Keyword(Keyword),
    Id(Seq<char>),
    Int(i64),
    LeftBrace,
    RightBrace,
    LeftBracket,
    RightBracket,
    LeftParen,
    RightParen,
    Semicolon,
    Colon,
    Comma,
    Dot,
    Question,
    Star,
    Plus,
    Minus,
    Divide,
    Equal,
    Ampersand,
    Ellipsis,
}

impl View for Token {
    type V = SpecToken;

    open spec fn view(&self) -> SpecToken {
        match self {
            Token::Keyword(k) => SpecToken::Keyword(*k),
            Token::Id(name) => SpecToken::Id(name@),
            Token::Int(n) => SpecToken::Int(*n),
            Token::LeftBrace => SpecToken::LeftBrace,
            Token::RightBrace => SpecToken::RightBrace,
            Token::LeftBracket => SpecToken::LeftBracket,
            Token::RightBracket => SpecToken::RightBracket,
            Token::LeftParen => SpecToken::LeftParen,
            Token::RightParen => SpecToken::RightParen,
            Token::Semicolon => SpecToken::Semicolon,
            Token::Colon => SpecToken::Colon,
            Token::Comma => SpecToken::Comma,
            Token::Dot => SpecToken::Dot,
            Token::Question => SpecToken::Question,
            Token::Star => SpecToken::Star,
            Token::Plus => SpecToken::Plus,
            Token::Minus => SpecToken::Minus,
            Token::Divide => SpecToken::Divide,
            Token::Equal => SpecToken::Equal,
            Token::Ampersand => SpecToken::Ampersand,
            Token::Ellipsis => SpecToken::Ellipsis,
        }
    }
}

impl Clone for Token {
    fn clone(&self) -> (copy: Token)
        ensures
            copy@ == self@,
    {
        match self {
            Token::Keyword(k) => Token::Keyword(*k),
            Token::Id(name) => Token::Id(name.clone()),
            Token::Int(n) => Token::Int(*n),
            Token::LeftBrace => Token::LeftBrace,
            Token::RightBrace => Token::RightBrace,
            Token::LeftBracket => Token::LeftBracket,
            Token::RightBracket => Token::RightBracket,
            Token::LeftParen => Token::LeftParen,
            Token::RightParen => Token::RightParen,
            Token::Semicolon => Token::Semicolon,
            Token::Colon => Token::Colon,
            Token::Comma => Token::Comma,
            Token::Dot => Token::Dot,
            Token::Question => Token::Question,
            Token::Star => Token::Star,
            Token::Plus => Token::Plus,
            Token::Minus => Token::Minus,
            Token::Divide => Token::Divide,
            Token::Equal => Token::Equal,
            Token::Ampersand => Token::Ampersand,
            Token::Ellipsis => Token::Ellipsis,
        }
    }
}

impl PartialEq for Token {
    fn eq(&self, other: &Token) -> (same: bool) {
        match (self, other) {
            (Token::Keyword(a), Token::Keyword(b)) => *a == *b,
            (Token::Id(a), Token::Id(b)) => *a == *b,
            (Token::Int(a), Token::Int(b)) => *a == *b,
            (Token::LeftBrace, Token::LeftBrace) => true,
            (Token::RightBrace, Token::RightBrace) => true,
            (Token::LeftBracket, Token::LeftBracket) => true,
            (Token::RightBracket, Token::RightBracket) => true,
            (Token::LeftParen, Token::LeftParen) => true,
            (Token::RightParen, Token::RightParen) => true,
            (Token::Semicolon, Token::Semicolon) => true,
            (Token::Colon, Token::Colon) => true,
            (Token::Comma, Token::Comma) => true,
            (Token::Dot, Token::Dot) => true,
            (Token::Question, Token::Question) => true,
            (Token::Star, Token::Star) => true,
            (Token::Plus, Token::Plus) => true,
            (Token::Minus, Token::Minus) => true,
            (Token::Divide, Token::Divide) => true,
            (Token::Equal, Token::Equal) => true,
            (Token::Ampersand, Token::Ampersand) => true,
            (Token::Ellipsis, Token::Ellipsis) => true,
            _ => false,
        }
    }
}

impl vstd::std_specs::cmp::PartialEqSpecImpl for Token {
    open spec fn obeys_eq_spec() -> bool {
        true
    }

    open spec fn eq_spec(&self, other: &Token) -> bool {
        self@ == other@
    }
}

/// An expression; only integer literals occur, as array sizes.
#[derive(Debug, PartialEq)]
pub enum Expr {
    Int(Token),
}

/// The model of an [`Expr`].
pub enum SpecExpr {
    Int(SpecToken),
}

impl View for Expr {
    type V = SpecExpr;

    open spec fn view(&self) -> SpecExpr {
        match self {
            Expr::Int(token) => SpecExpr::Int(token@),
        }
    }
}

impl Clone for Expr {
    fn clone(&self) -> (copy: Expr)
        ensures
            copy@ == self@,
    {
        match self {
            Expr::Int(token) => Expr::Int(token.clone()),
        }
    }
}

/// The size of an array type.
#[derive(Debug, PartialEq)]
pub enum ArrayType {
    Unbounded,
    Fixed(Box<Expr>),
}

/// The model of an [`ArrayType`].
pub enum SpecArrayType {
    Unbounded,
    Fixed(SpecExpr),
}

impl View for ArrayType {
    type V = SpecArrayType;

    open spec fn view(&self) -> SpecArrayType {
        match self {
            ArrayType::Unbounded => SpecArrayType::Unbounded,
            ArrayType::Fixed(size) => SpecArrayType::Fixed((**size)@),
        }
    }
}

impl Clone for ArrayType {
    fn clone(&self) -> (copy: ArrayType)
        ensures
            copy@ == self@,
    {
        match self {
            ArrayType::Unbounded => ArrayType::Unbounded,
            ArrayType::Fixed(size) => ArrayType::Fixed(Box::new((**size).clone())),
        }
    }
}

/// A C type. Signedness is `true` for signed.
#[derive(Debug, PartialEq)]
pub enum Type {
    Void,
    Bool,
    Char(bool),
    Short(bool),
    Int(bool),
    Long(bool),
    Float,
    Double,
    Pointer(Box<Type>, Qualifiers),
    Array(Box<Type>, ArrayType),
    Function(FunctionType),
}

/// The return type, parameters and variadic flag of a function type.
#[derive(Debug, PartialEq)]
pub struct FunctionType {
    pub return_type: Box<Type>,
    pub params: Vec<Symbol>,
    pub varargs: bool,
}

/// A declared name. The empty name stands for an unnamed parameter.
#[derive(Debug, PartialEq)]
pub struct Symbol {
    pub id: String,
    pub ctype: Type,
    pub qualifiers: Qualifiers,
    pub storage_class: StorageClass,
}

/// A statement; declarations are the only kind.
#[derive(Debug, PartialEq)]
pub enum Stmt {
    Declaration(Symbol),
}

/// The model of a [`Type`]: a tree whose parameter lists are sequences.
pub enum SpecType {
    Void,
    Bool,
    Char(bool),
    Short(bool),
    Int(bool),
    Long(bool),
    Float,
    Double,
    Pointer(Box<SpecType>, Qualifiers),
    Array(Box<SpecType>, SpecArrayType),
    Function(SpecFunctionType),
}

/// The model of a [`FunctionType`].
pub struct SpecFunctionType {
    pub return_type: Box<SpecType>,
    pub params: Seq<SpecSymbol>,
    pub varargs: bool,
}

/// The model of a [`Symbol`].
pub struct SpecSymbol {
    pub id: Seq<char>,
    pub ctype: SpecType,
    pub qualifiers: Qualifiers,
    pub storage_class: StorageClass,
}

/// The model of a [`Stmt`].
pub enum SpecStmt {
    Declaration(SpecSymbol),
}

impl Type {
    /// The model of this type, by recursion over the tree.
    pub open spec fn model(&self) -> SpecType
        decreases self,
    {
        match self {
            Type::Void => SpecType::Void,
            Type::Bool => SpecType::Bool,
            Type::Char(signed) => SpecType::Char(*signed),
            Type::Short(signed) => SpecType::Short(*signed),
            Type::Int(signed) => SpecType::Int(*signed),
            Type::Long(signed) => SpecType::Long(*signed),
            Type::Float => SpecType::Float,
            Type::Double => SpecType::Double,
            Type::Pointer(to, qualifiers) => SpecType::Pointer(
                Box::new((**to).model()),
                *qualifiers,
            ),
            Type::Array(of, size) => SpecType::Array(Box::new((**of).model()), size@),
            Type::Function(f) => SpecType::Function(
                SpecFunctionType {
                    return_type: Box::new((*f.return_type).model()),
                    params: Seq::new(
                        f.params@.len(),
                        |i: int|
                            if 0 <= i < f.params@.len() {
                                f.params@[i].model()
                            } else {
                                arbitrary()
                            },
                    ),
                    varargs: f.varargs,
                },
            ),
        }
    }
}

impl Symbol {
    /// The model of this symbol.
    pub open spec fn model(&self) -> SpecSymbol
        decreases self,
    {
        SpecSymbol {
            id: self.id@,
            ctype: self.ctype.model(),
            qualifiers: self.qualifiers,
            storage_class: self.storage_class,
        }
    }
}

impl Type {
    /// The type that a keyword alone names, signed where that applies.
    pub open spec fn spec_try_from(keyword: Keyword) -> Result<SpecType, ()> {
        match BaseType::spec_try_from(keyword) {
            Ok(base) => Ok(base.spec_with_sign(true)),
            Err(_) => Err(()),
        }
    }

    /// The type that a keyword alone names, signed where that applies.
    pub fn try_from(keyword: Keyword) -> (ctype: Result<Type, ()>)
        ensures
            match ctype {
                Ok(ctype) => Type::spec_try_from(keyword) == Ok::<SpecType, ()>(ctype@),
                Err(_) => Type::spec_try_from(keyword) is Err,
            },
    {
        match BaseType::try_from(keyword) {
            Ok(base) => Ok(base.with_sign(true)),
            Err(_) => Err(()),
        }
    }
}

impl View for Type {
    type V = SpecType;

    open spec fn view(&self) -> SpecType {
        self.model()
    }
}

impl View for Symbol {
    type V = SpecSymbol;

    open spec fn view(&self) -> SpecSymbol {
        self.model()
    }
}

impl View for Stmt {
    type V = SpecStmt;

    open spec fn view(&self) -> SpecStmt {
        match self {
            Stmt::Declaration(symbol) => SpecStmt::Declaration(symbol@),
        }
    }
}

/// The models of a list of symbols, in order.
pub open spec fn symbols_view(symbols: Seq<Symbol>) -> Seq<SpecSymbol> {
    symbols.map_values(|symbol: Symbol| symbol@)
}

/// The model of a function type has the models of its parameters, in order.
pub proof fn lemma_function_view(f: FunctionType)
    ensures
        Type::Function(f)@ == SpecType::Function(
            SpecFunctionType {
                return_type: Box::new(f.return_type@),
                params: symbols_view(f.params@),
                varargs: f.varargs,
            },
        ),
{
    assert(Type::Function(f)@->Function_0.params =~= symbols_view(f.params@));
}

fn clone_symbols(symbols: &Vec<Symbol>) -> (copy: Vec<Symbol>)
    ensures
        symbols_view(copy@) == symbols_view(symbols@),
    decreases symbols,
{
    let mut copy: Vec<Symbol> = Vec::new();
    let mut i: usize = 0;
    while i < symbols.len()
        invariant
            i <= symbols.len(),
            copy.len() == i,
            forall|j: int| 0 <= j < i ==> copy@[j]@ == symbols@[j]@,
        decreases symbols.len() - i,
    {
        copy.push(symbols[i].clone());
        i += 1;
    }
    assert(symbols_view(copy@) =~= symbols_view(symbols@));
    copy
}

impl Clone for Symbol {
    fn clone(&self) -> (copy: Symbol)
        ensures
            copy@ == self@,
        decreases self,
    {
        Symbol {
            id: self.id.clone(),
            ctype: self.ctype.clone(),
            qualifiers: self.qualifiers,
            storage_class: self.storage_class,
        }
    }
}

impl Clone for Type {
    fn clone(&self) -> (copy: Type)
        ensures
            copy@ == self@,
        decreases self,
    {
        match self {
            Type::Void => Type::Void,
            Type::Bool => Type::Bool,
            Type::Char(signed) => Type::Char(*signed),
            Type::Short(signed) => Type::Short(*signed),
            Type::Int(signed) => Type::Int(*signed),
            Type::Long(signed) => Type::Long(*signed),
            Type::Float => Type::Float,
            Type::Double => Type::Double,
            Type::Pointer(to, qualifiers) => Type::Pointer(Box::new((**to).clone()), *qualifiers),
            Type::Array(of, size) => Type::Array(Box::new((**of).clone()), size.clone()),
            Type::Function(f) => {
                let copy = FunctionType {
                    return_type: Box::new((*f.return_type).clone()),
                    params: clone_symbols(&f.params),
                    varargs: f.varargs,
                };
                proof {
                    lemma_function_view(copy);
                    lemma_function_view(*f);
                }
                Type::Function(copy)
            },
        }
    }
}

impl Clone for FunctionType {
    fn clone(&self) -> (copy: FunctionType)
        ensures
            Type::Function(copy)@ == Type::Function(*self)@,
    {
        let copy = FunctionType {
            return_type: Box::new((*self.return_type).clone()),
            params: clone_symbols(&self.params),
            varargs: self.varargs,
        };
        proof {
            lemma_function_view(copy);
            lemma_function_view(*self);
        }
        copy
    }
}

impl Clone for Stmt {
    fn clone(&self) -> (copy: Stmt)
        ensures
            copy@ == self@,
    {
        match self {
            Stmt::Declaration(symbol) => Stmt::Declaration(symbol.clone()),
        }
    }
}

} // verus!
