use asm_callgraph::classifier::classify_text;
use asm_callgraph::directive::LinkType;

#[test]
fn functions_are_listed_in_the_order_of_declaration() {
    let c = classify_text(
        "\t.type\tb, @function\n\t.type\ta, @function\n\t.type\tb, @function\n\t.type\tv, @object\n",
    );
    assert_eq!(c.len(), 2);
    assert_eq!(c.function(0), Some(&"b".to_owned()));
    assert_eq!(c.function(1), Some(&"a".to_owned()));
    assert_eq!(c.function(2), None);
    assert_eq!(c.position("a"), Some(1));
    assert_eq!(c.position("b"), Some(0));
    assert_eq!(c.position("v"), None);
}

#[test]
fn type_directive_needs_a_name_a_comma_and_the_function_tag() {
    let c = classify_text(
        ".type\n.type f\n.type , @function\n.type g @function\n.typeh, @function\n.type i, @functions\n.type  j  ,  @function\n",
    );
    assert_eq!(c.len(), 1);
    assert_eq!(c.function(0), Some(&"j".to_owned()));
}

#[test]
fn linkage_is_local_unless_a_directive_says_otherwise() {
    let c = classify_text("\t.globl\tg\n  .weak w  \n\t.globl\n.weak\n.weakx\n.global y\n");
    assert_eq!(c.linkage_of("g"), LinkType::Global);
    assert_eq!(c.linkage_of("w"), LinkType::Weak);
    assert_eq!(c.linkage_of("x"), LinkType::Local);
    assert_eq!(c.linkage_of("y"), LinkType::Local);
    assert_eq!(c.linkage_of(""), LinkType::Local);
}

#[test]
fn last_alias_declaration_holds() {
    let c = classify_text("\t.set\ta, first\n\t.set\tb,\tother\n\t.set\ta,second\n\t.set\ta,\n");
    assert_eq!(c.alias_of("a"), Some(&"second".to_owned()));
    assert_eq!(c.alias_of("b"), Some(&"other".to_owned()));
    assert_eq!(c.alias_of("second"), None);
}

#[test]
fn empty_text_classifies_nothing() {
    let c = classify_text("");
    assert_eq!(c.len(), 0);
    assert_eq!(c.function(0), None);
    assert_eq!(c.position(""), None);
    assert_eq!(c.alias_of(""), None);
}
