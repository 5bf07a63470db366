use qlion::order::{normalize_field, Order};

#[test]
pub fn test_item_no() {
    let mut order = Order::empty();
    order.item_name = String::from("AJJ0 helloworld");
    assert_eq!(order.item_no(), String::from("AJJ0"));
}

#[test]
pub fn test_empty_item_no() {
    let mut order = Order::empty();
    order.item_name = String::from("AJJ0helloworld");
    assert_eq!(order.item_no().len(), 0);
}

#[test]
fn test_merge_joins_items_and_sums() {
    let mut a = Order::empty();
    a.item_name = String::from("AJ001 x * 2");
    a.total_count = 2;
    a.total_price = 400;
    a.leave_msg = String::from("note a");
    let mut b = Order::empty();
    b.id = String::from("order-9");
    b.item_name = String::from("AJ001 y * 1");
    b.total_count = 1;
    b.total_price = 300;
    b.leave_msg = String::from("note b");

    a.merge(&b);
    assert_eq!(a.item_name, "AJ001 x * 2\nAJ001 y * 1");
    assert_eq!(a.total_count, 3);
    assert_eq!(a.total_price, 700);
    assert_eq!(a.leave_msg, "note a\nnote b");
    assert_eq!(a.merged.len(), 0);

    let mut c = Order::empty();
    c.item_name = String::from("AJ001 z * 1");
    c.leave_msg = String::from("");
    a.merge_diff(&c);
    assert_eq!(a.merged, vec![String::from("unknow")]);
    assert_eq!(a.leave_msg, "note a\nnote b");
}

#[test]
fn test_normalize_field_commas_and_newlines() {
    assert_eq!(normalize_field("a,b"), "a，b");
    assert_eq!(normalize_field("line1\r\nline2"), "line1\nline2");
    assert_eq!(normalize_field("plain"), "plain");
    assert_eq!(normalize_field(""), "");
}

#[test]
fn test_excel_title_row() {
    let row = Order::excel_title_row();
    assert_eq!(row.len(), 10);
    assert_eq!(row[0], "订单编号");
    assert_eq!(row[1], "手动处理");
    assert_eq!(row[2], "实付款(元)");
    assert_eq!(row[8], "数量");
    assert_eq!(row[9], "买家留言");
}

#[test]
fn test_as_excel_row_plain_order() {
    let mut o = Order::empty();
    o.id = String::from("order-1");
    o.pay_amount = 1234;
    o.total_price = 9999;
    o.status = String::from("sent");
    o.consignee = String::from("xiaoming");
    o.shipping_address = String::from("beijing");
    o.phone = String::from("123456");
    o.telephone = String::from("654321");
    o.item_name = String::from("AJ001 thing * 3");
    o.total_count = 3;
    o.leave_msg = String::from("note");

    let row = o.as_excel_row();
    assert_eq!(row.len(), 10);
    assert_eq!(row[0], "order-1");
    // no flags: the money column is the reported paid amount
    assert_eq!(row[1], "");
    assert_eq!(row[2], "12.34");
    assert_eq!(row[3], "sent");
    assert_eq!(row[4], "xiaoming");
    assert_eq!(row[5], "beijing");
    // the mobile phone is non-empty, so it wins
    assert_eq!(row[6], "123456");
    assert_eq!(row[7], "AJ001 thing * 3");
    assert_eq!(row[8], "3");
    assert_eq!(row[9], "note");
}

#[test]
fn test_as_excel_row_flags_and_recomputed_money() {
    let mut o = Order::empty();
    o.id = String::from("order-1");
    o.pay_amount = 1234;
    o.total_price = 2550;
    o.total_count = -2;
    o.phone = String::from("");
    o.telephone = String::from("654321");
    o.has_same_phone_order = true;
    o.merged.push(String::from("order-2"));
    o.splited = true;

    let row = o.as_excel_row();
    // all three flags, in their fixed order
    assert_eq!(row[1], "未合已合已拆");
    // merged or split: the money column is the recomputed total
    assert_eq!(row[2], "25.50");
    // the mobile phone is empty, so the landline wins
    assert_eq!(row[6], "654321");
    assert_eq!(row[8], "-2");
}
