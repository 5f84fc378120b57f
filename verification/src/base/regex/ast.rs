//! The syntax tree of a regular expression.
use vstd::prelude::*;

verus! {

#[derive(Debug, Clone, Copy)]
pub enum RepeatType {
    Exactly(u32),
    AtLeast(u32),
    Between(u32, u32),
}

/// The closed range `[start, end]` of code points.
#[derive(Debug, Clone, Copy)]
pub struct CharClassItem {
    pub start: u32,
    pub end: u32,
}

#[derive(Debug, Clone)]
pub struct CharClass {
    pub negated: bool,
    pub items: Vec<CharClassItem>,
}

#[derive(Debug)]
pub enum RegexType {
    Char(u32),
    CharClass(CharClass),
    Concat(Box<RegexType>, Box<RegexType>),
    Alt(Box<RegexType>, Box<RegexType>),
    Star(Box<RegexType>),
    Plus(Box<RegexType>),
    Opt(Box<RegexType>),
    Repeat(Box<RegexType>, RepeatType),
}

/// The mathematical value of a regular expression: a tree whose character
/// classes hold sequences.
pub enum RegexModel {
    Char(u32),
    CharClass(bool, Seq<CharClassItem>),
    Concat(Box<RegexModel>, Box<RegexModel>),
    Alt(Box<RegexModel>, Box<RegexModel>),
    Star(Box<RegexModel>),
    Plus(Box<RegexModel>),
    Opt(Box<RegexModel>),
    Repeat(Box<RegexModel>, RepeatType),
}

impl RegexType {
    pub open spec fn model(&self) -> RegexModel
        decreases self,
    {
        match self {
            RegexType::Char(c) => RegexModel::Char(*c),
            RegexType::CharClass(cls) => RegexModel::CharClass(cls.negated, cls.items@),
            RegexType::Concat(a, b) => RegexModel::Concat(Box::new(a.model()), Box::new(b.model())),
            RegexType::Alt(a, b) => RegexModel::Alt(Box::new(a.model()), Box::new(b.model())),
            RegexType::Star(a) => RegexModel::Star(Box::new(a.model())),
            RegexType::Plus(a) => RegexModel::Plus(Box::new(a.model())),
            RegexType::Opt(a) => RegexModel::Opt(Box::new(a.model())),
            RegexType::Repeat(a, k) => RegexModel::Repeat(Box::new(a.model()), *k),
        }
    }
}

impl View for RegexType {
    type V = RegexModel;

    open spec fn view(&self) -> RegexModel {
        self.model()
    }
}

} // verus!
